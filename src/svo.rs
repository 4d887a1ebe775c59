//! The sparse voxel octree: a flat pool of packed nodes built from a dense
//! occupancy grid.
//!
//! A node is two words. Word 0 holds the empty flag (bit 31), the leaf flag
//! (bit 30) and the index of the first of the node's eight children (bits
//! 29..0); word 1 holds the colour. Node 0 is the root sentinel, whose child
//! tile starts at index 1.
use vstd::prelude::*;
use crate::voxel::block_occupied;
use crate::voxel_grid::VoxelGrid;

verus! {

pub type Node = [u32; 2];

pub const EMPTY_FLAG: u32 = 0x8000_0000;

pub const LEAF_FLAG: u32 = 0x4000_0000;

/// Mask of the child index; a leaf stores the whole mask there.
pub const CHILD_MASK: u32 = 0x3fff_ffff;

pub open spec fn node_empty(n: Node) -> bool {
    n@[0] & EMPTY_FLAG != 0
}

pub open spec fn node_leaf(n: Node) -> bool {
    n@[0] & LEAF_FLAG != 0
}

pub open spec fn node_child(n: Node) -> u32 {
    n@[0] & CHILD_MASK
}

pub open spec fn node_color(n: Node) -> u32 {
    n@[1]
}

/// A node built by `set_node` from its four parts.
pub open spec fn packs(n: Node, empty: bool, leaf: bool, children: u32, color: u32) -> bool {
    &&& node_empty(n) == empty
    &&& node_leaf(n) == leaf
    &&& node_child(n) == children & CHILD_MASK
    &&& node_color(n) == color
}

proof fn lemma_pack(empty: bool, leaf: bool, children: u32)
    by (bit_vector)
    ensures
        ((((if empty { 1u32 } else { 0u32 }) << 31u32) | ((if leaf { 1u32 } else { 0u32 }) << 30u32)
            | (children & 0x3fff_ffff)) & 0x8000_0000 != 0) == empty,
        ((((if empty { 1u32 } else { 0u32 }) << 31u32) | ((if leaf { 1u32 } else { 0u32 }) << 30u32)
            | (children & 0x3fff_ffff)) & 0x4000_0000 != 0) == leaf,
        (((if empty { 1u32 } else { 0u32 }) << 31u32) | ((if leaf { 1u32 } else { 0u32 }) << 30u32)
            | (children & 0x3fff_ffff)) & 0x3fff_ffff == children & 0x3fff_ffff,
{
}

proof fn lemma_small_index(c: usize)
    by (bit_vector)
    requires
        c < 0x3fff_ffff,
    ensures
        (c as u32) & 0x3fff_ffffu32 == c,
{
}

proof fn lemma_empty_node()
    by (bit_vector)
    ensures
        0x8000_0000u32 & 0x8000_0000u32 != 0,
        0x8000_0000u32 & 0x4000_0000u32 == 0,
        0x8000_0000u32 & 0x3fff_ffffu32 == 0,
        0u32 & 0x3fff_ffffu32 == 0,
        0x3fff_ffffu32 & 0x3fff_ffffu32 == 0x3fff_ffffu32,
{
}

fn create_node() -> (r: Node)
    ensures
        packs(r, true, false, 0, 0),
{
    let w: u32 = 1 << 31;  // default is an empty node
    proof {
        assert(w == 0x8000_0000) by (bit_vector)
            requires
                w == 1u32 << 31u32,
        ;
        lemma_empty_node();
    }
    let mut r: Node = [0u32; 2];
    r[0] = w;
    assert(r@[0] == 0x8000_0000u32);
    assert(r@[1] == 0);
    r
}

fn set_node(node: &mut Node, is_empty: bool, is_leaf: bool, children: usize, color: u32)
    ensures
        packs(*final(node), is_empty, is_leaf, children as u32, color),
{
    let e: u32 = if is_empty { 1 } else { 0 };
    let l: u32 = if is_leaf { 1 } else { 0 };
    proof {
        lemma_pack(is_empty, is_leaf, children as u32);
    }
    node[0] = (e << 31) | (l << 30) | (children as u32 & 0x3fffffff);
    node[1] = color;
}

/// Whether the node stands for an empty octant.
pub fn is_empty(node: &Node) -> (r: bool)
    ensures
        r == node_empty(*node),
{
    (node[0] & 0x80000000) != 0
}

/// Whether the node is a leaf voxel.
pub fn is_leaf(node: &Node) -> (r: bool)
    ensures
        r == node_leaf(*node),
{
    (node[0] & 0x40000000) != 0
}

/// Index of the first of the node's eight children.
pub fn child_idx(node: &Node) -> (r: usize)
    ensures
        r == node_child(*node),
{
    (node[0] & 0x3fffffff) as usize
}

/// Colour of a leaf voxel: its coordinates packed as `x | y << 8 | z << 16`.
pub open spec fn voxel_color(x: int, y: int, z: int) -> u32 {
    ((x as usize) | ((y as usize) << 8usize) | ((z as usize) << 16usize)) as u32
}

/// Offset of octant `i` along axis `axis` (0, 1, 2) for children of edge
/// `half`: bit 0 of `i` set selects the upper half in x, bit 1 in y, bit 2
/// in z.
pub open spec fn octant_offset(i: int, axis: int, half: int) -> int {
    if (if axis == 0 {
        i % 2
    } else if axis == 1 {
        (i / 2) % 2
    } else {
        (i / 4) % 2
    }) == 1 {
        half
    } else {
        0
    }
}

/// Nodes of the subtree of the cube of edge `size` at `(x, y, z)`: its
/// tile of eight, and the subtrees of its occupied octants that are more
/// than one cell wide.
pub open spec fn subtree_size(cells: Seq<Vec<Vec<bool>>>, x: int, y: int, z: int, size: int) -> nat
    decreases size,
{
    let h = size / 2;
    if h < 2 {
        8
    } else {
        8 + (if block_occupied(cells, x + octant_offset(0, 0, h), y + octant_offset(0, 1, h), z + octant_offset(0, 2, h), h) {
            subtree_size(cells, x + octant_offset(0, 0, h), y + octant_offset(0, 1, h), z + octant_offset(0, 2, h), h)
        } else {
            0
        })
        + (if block_occupied(cells, x + octant_offset(1, 0, h), y + octant_offset(1, 1, h), z + octant_offset(1, 2, h), h) {
            subtree_size(cells, x + octant_offset(1, 0, h), y + octant_offset(1, 1, h), z + octant_offset(1, 2, h), h)
        } else {
            0
        })
        + (if block_occupied(cells, x + octant_offset(2, 0, h), y + octant_offset(2, 1, h), z + octant_offset(2, 2, h), h) {
            subtree_size(cells, x + octant_offset(2, 0, h), y + octant_offset(2, 1, h), z + octant_offset(2, 2, h), h)
        } else {
            0
        })
        + (if block_occupied(cells, x + octant_offset(3, 0, h), y + octant_offset(3, 1, h), z + octant_offset(3, 2, h), h) {
            subtree_size(cells, x + octant_offset(3, 0, h), y + octant_offset(3, 1, h), z + octant_offset(3, 2, h), h)
        } else {
            0
        })
        + (if block_occupied(cells, x + octant_offset(4, 0, h), y + octant_offset(4, 1, h), z + octant_offset(4, 2, h), h) {
            subtree_size(cells, x + octant_offset(4, 0, h), y + octant_offset(4, 1, h), z + octant_offset(4, 2, h), h)
        } else {
            0
        })
        + (if block_occupied(cells, x + octant_offset(5, 0, h), y + octant_offset(5, 1, h), z + octant_offset(5, 2, h), h) {
            subtree_size(cells, x + octant_offset(5, 0, h), y + octant_offset(5, 1, h), z + octant_offset(5, 2, h), h)
        } else {
            0
        })
        + (if block_occupied(cells, x + octant_offset(6, 0, h), y + octant_offset(6, 1, h), z + octant_offset(6, 2, h), h) {
            subtree_size(cells, x + octant_offset(6, 0, h), y + octant_offset(6, 1, h), z + octant_offset(6, 2, h), h)
        } else {
            0
        })
        + (if block_occupied(cells, x + octant_offset(7, 0, h), y + octant_offset(7, 1, h), z + octant_offset(7, 2, h), h) {
            subtree_size(cells, x + octant_offset(7, 0, h), y + octant_offset(7, 1, h), z + octant_offset(7, 2, h), h)
        } else {
            0
        })
    }
}

/// Nodes of the subtree below octant `i` of the cube: none for an empty
/// octant or a single cell.
pub open spec fn inner_size(
    cells: Seq<Vec<Vec<bool>>>,
    x: int,
    y: int,
    z: int,
    size: int,
    i: int,
) -> nat {
    let h = size / 2;
    let cx = x + octant_offset(i, 0, h);
    let cy = y + octant_offset(i, 1, h);
    let cz = z + octant_offset(i, 2, h);
    if h >= 2 && block_occupied(cells, cx, cy, cz, h) {
        subtree_size(cells, cx, cy, cz, h)
    } else {
        0
    }
}

/// Nodes of the subtrees below the octants `0..k` of the cube, which the
/// pool holds one after another right after the cube's tile.
pub open spec fn prefix_size(
    cells: Seq<Vec<Vec<bool>>>,
    x: int,
    y: int,
    z: int,
    size: int,
    k: int,
) -> nat
    decreases k,
{
    if k <= 0 {
        0
    } else {
        prefix_size(cells, x, y, z, size, k - 1) + inner_size(cells, x, y, z, size, k - 1)
    }
}

/// A subtree is its tile and the subtrees below its eight octants.
proof fn lemma_subtree_size(cells: Seq<Vec<Vec<bool>>>, x: int, y: int, z: int, size: int)
    ensures
        subtree_size(cells, x, y, z, size) == 8 + prefix_size(cells, x, y, z, size, 8),
        forall|i: int, j: int|
            0 <= i <= j <= 8 ==> #[trigger] prefix_size(cells, x, y, z, size, i) <= #[trigger] prefix_size(
                cells,
                x,
                y,
                z,
                size,
                j,
            ),
{
    reveal_with_fuel(prefix_size, 9);
    assert forall|i: int, j: int|
        0 <= i <= j <= 8 implies #[trigger] prefix_size(cells, x, y, z, size, i) <= #[trigger] prefix_size(
            cells,
            x,
            y,
            z,
            size,
            j,
        ) by {
        lemma_prefix_grows(cells, x, y, z, size, i, j);
    }
}

proof fn lemma_prefix_grows(
    cells: Seq<Vec<Vec<bool>>>,
    x: int,
    y: int,
    z: int,
    size: int,
    i: int,
    j: int,
)
    requires
        0 <= i <= j,
    ensures
        prefix_size(cells, x, y, z, size, i) <= prefix_size(cells, x, y, z, size, j),
    decreases j - i,
{
    if i < j {
        lemma_prefix_grows(cells, x, y, z, size, i, j - 1);
    }
}

/// Node `tile + i` of `pool` is child `i` of the cube of edge `size` at
/// `(x, y, z)`: empty where that octant holds no occupied cell, a leaf with
/// the octant's colour where the octant is a single cell, and otherwise an
/// inner node whose eight children hold the octant's subtree. The subtrees
/// of the octants follow the tile in octant order, each right after the one
/// before, so the child tile of octant `i` starts `prefix_size` nodes after
/// the tile's end.
pub open spec fn child_ok(
    pool: Seq<Node>,
    cells: Seq<Vec<Vec<bool>>>,
    tile: int,
    i: int,
    x: int,
    y: int,
    z: int,
    size: int,
) -> bool {
    let half = size / 2;
    let cx = x + octant_offset(i, 0, half);
    let cy = y + octant_offset(i, 1, half);
    let cz = z + octant_offset(i, 2, half);
    let n = pool[tile + i];
    if !block_occupied(cells, cx, cy, cz, half) {
        packs(n, true, false, 0, 0)
    } else if half <= 1 {
        packs(n, false, true, CHILD_MASK, voxel_color(cx, cy, cz))
    } else {
        &&& !node_empty(n)
        &&& !node_leaf(n)
        &&& node_color(n) == voxel_color(cx, cy, cz)
        &&& node_child(n) == tile + 8 + prefix_size(cells, x, y, z, size, i)
        &&& subtree_ok(pool, cells, node_child(n) as int, cx, cy, cz, half)
    }
}

/// The eight nodes from `tile` on are the children of the cube of edge
/// `size` at `(x, y, z)`, each as `child_ok` says.
pub open spec fn subtree_ok(
    pool: Seq<Node>,
    cells: Seq<Vec<Vec<bool>>>,
    tile: int,
    x: int,
    y: int,
    z: int,
    size: int,
) -> bool
    decreases size,
{
    &&& 0 <= tile
    &&& tile + 8 <= pool.len()
    &&& forall|i: int|
        0 <= i < 8 ==> {
            let half = size / 2;
            let cx = x + octant_offset(i, 0, half);
            let cy = y + octant_offset(i, 1, half);
            let cz = z + octant_offset(i, 2, half);
            let n = #[trigger] pool[tile + i];
            if !block_occupied(cells, cx, cy, cz, half) {
                packs(n, true, false, 0, 0)
            } else if half <= 1 {
                packs(n, false, true, CHILD_MASK, voxel_color(cx, cy, cz))
            } else {
                &&& !node_empty(n)
                &&& !node_leaf(n)
                &&& node_color(n) == voxel_color(cx, cy, cz)
                &&& node_child(n) == tile + 8 + prefix_size(cells, x, y, z, size, i)
                &&& subtree_ok(pool, cells, node_child(n) as int, cx, cy, cz, half)
            }
        }
}

/// `subtree_ok` is `child_ok` for each of the eight children.
proof fn lemma_subtree_children(
    pool: Seq<Node>,
    cells: Seq<Vec<Vec<bool>>>,
    tile: int,
    x: int,
    y: int,
    z: int,
    size: int,
)
    ensures
        subtree_ok(pool, cells, tile, x, y, z, size) <==> (0 <= tile && tile + 8 <= pool.len()
            && forall|i: int| 0 <= i < 8 ==> #[trigger] child_ok(pool, cells, tile, i, x, y, z, size)),
{
    if subtree_ok(pool, cells, tile, x, y, z, size) {
        assert forall|i: int| 0 <= i < 8 implies #[trigger] child_ok(
            pool,
            cells,
            tile,
            i,
            x,
            y,
            z,
            size,
        ) by {
            let n = pool[tile + i];
        }
    }
    if 0 <= tile && tile + 8 <= pool.len() && forall|i: int|
        0 <= i < 8 ==> #[trigger] child_ok(pool, cells, tile, i, x, y, z, size) {
        assert forall|i: int| 0 <= i < 8 implies #[trigger] pool[tile + i] == pool[tile + i] && {
            let half = size / 2;
            let cx = x + octant_offset(i, 0, half);
            let cy = y + octant_offset(i, 1, half);
            let cz = z + octant_offset(i, 2, half);
            let n = pool[tile + i];
            if !block_occupied(cells, cx, cy, cz, half) {
                packs(n, true, false, 0, 0)
            } else if half <= 1 {
                packs(n, false, true, CHILD_MASK, voxel_color(cx, cy, cz))
            } else {
                &&& !node_empty(n)
                &&& !node_leaf(n)
                &&& node_color(n) == voxel_color(cx, cy, cz)
                &&& node_child(n) == tile + 8 + prefix_size(cells, x, y, z, size, i)
                &&& subtree_ok(pool, cells, node_child(n) as int, cx, cy, cz, half)
            }
        } by {
            assert(child_ok(pool, cells, tile, i, x, y, z, size));
        }
    }
}

/// A subtree keeps its meaning in a pool that agrees with the old one from
/// its tile on and may have grown.
proof fn lemma_subtree_frame(
    p1: Seq<Node>,
    p2: Seq<Node>,
    cells: Seq<Vec<Vec<bool>>>,
    tile: int,
    x: int,
    y: int,
    z: int,
    size: int,
)
    requires
        subtree_ok(p1, cells, tile, x, y, z, size),
        p1.len() <= p2.len(),
        forall|k: int| tile <= k < p1.len() ==> p2[k] == p1[k],
    ensures
        subtree_ok(p2, cells, tile, x, y, z, size),
    decreases size,
{
    lemma_subtree_children(p1, cells, tile, x, y, z, size);
    lemma_subtree_children(p2, cells, tile, x, y, z, size);
    assert forall|i: int| 0 <= i < 8 implies #[trigger] child_ok(
        p2,
        cells,
        tile,
        i,
        x,
        y,
        z,
        size,
    ) by {
        assert(subtree_ok(p1, cells, tile, x, y, z, size));
        assert(child_ok(p1, cells, tile, i, x, y, z, size));
        let half = size / 2;
        let cx = x + octant_offset(i, 0, half);
        let cy = y + octant_offset(i, 1, half);
        let cz = z + octant_offset(i, 2, half);
        let n = p1[tile + i];
        assert(p2[tile + i] == n);
        if block_occupied(cells, cx, cy, cz, half) && half > 1 {
            lemma_subtree_frame(p1, p2, cells, node_child(n) as int, cx, cy, cz, half);
        }
    }
}

/// A sparse voxel octree over the unit cube: the node pool, root sentinel
/// first.
pub struct SparseVoxelOctree {
    pub node_pool: Vec<Node>,
}

/// Bytes of one packed node.
pub const NODE_BYTES: usize = 8;

/// The origins of the eight children of the cube of edge `2 * half` at
/// `(x, y, z)`, by octant.
fn child_origins(x: usize, y: usize, z: usize, half: usize) -> (r: ([usize; 8], [usize; 8], [usize; 8]))
    requires
        x + half <= usize::MAX,
        y + half <= usize::MAX,
        z + half <= usize::MAX,
    ensures
        forall|j: int| 0 <= j < 8 ==> #[trigger] r.0@[j] == x + octant_offset(j, 0, half as int),
        forall|j: int| 0 <= j < 8 ==> #[trigger] r.1@[j] == y + octant_offset(j, 1, half as int),
        forall|j: int| 0 <= j < 8 ==> #[trigger] r.2@[j] == z + octant_offset(j, 2, half as int),
{
    let h = half;
    let cx: [usize; 8] = [x, x + h, x, x + h, x, x + h, x, x + h];
    let cy: [usize; 8] = [y, y, y + h, y + h, y, y, y + h, y + h];
    let cz: [usize; 8] = [z, z, z, z, z + h, z + h, z + h, z + h];
    (cx, cy, cz)
}

/// Nodes of the subtree of the cube of edge `size` at `(x, y, z)`, or
/// `None` when there are more than `limit`.
fn count_subtree(voxel_grid: &VoxelGrid, x: usize, y: usize, z: usize, size: usize, limit: u64) -> (r:
    Option<u64>)
    requires
        voxel_grid.wf(),
        x + size <= voxel_grid.size,
        y + size <= voxel_grid.size,
        z + size <= voxel_grid.size,
    ensures
        r == if subtree_size(voxel_grid.data@, x as int, y as int, z as int, size as int) <= limit {
            Some(subtree_size(voxel_grid.data@, x as int, y as int, z as int, size as int) as u64)
        } else {
            None::<u64>
        },
    decreases size,
{
    let ghost cells = voxel_grid.data@;
    proof {
        lemma_subtree_size(cells, x as int, y as int, z as int, size as int);
    }
    let half_size = size / 2;
    if limit < 8 {
        return None;
    }
    if half_size < 2 {
        return Some(8);
    }
    let (cx, cy, cz) = child_origins(x, y, z, half_size);
    let mut total: u64 = 8;
    let mut i: usize = 0;
    while i < 8
        invariant
            voxel_grid.wf(),
            cells == voxel_grid.data@,
            x + size <= voxel_grid.size,
            y + size <= voxel_grid.size,
            z + size <= voxel_grid.size,
            half_size == size / 2,
            half_size >= 2,
            i <= 8,
            forall|j: int| 0 <= j < 8 ==> #[trigger] cx@[j] == x + octant_offset(j, 0, half_size as int),
            forall|j: int| 0 <= j < 8 ==> #[trigger] cy@[j] == y + octant_offset(j, 1, half_size as int),
            forall|j: int| 0 <= j < 8 ==> #[trigger] cz@[j] == z + octant_offset(j, 2, half_size as int),
            total == 8 + prefix_size(cells, x as int, y as int, z as int, size as int, i as int),
            total <= limit,
            subtree_size(cells, x as int, y as int, z as int, size as int) == 8 + prefix_size(
                cells,
                x as int,
                y as int,
                z as int,
                size as int,
                8,
            ),
            forall|a: int, b: int|
                0 <= a <= b <= 8 ==> #[trigger] prefix_size(cells, x as int, y as int, z as int, size as int, a)
                    <= #[trigger] prefix_size(cells, x as int, y as int, z as int, size as int, b),
        decreases 8 - i,
    {
        proof {
            assert(cx@[i as int] == x + octant_offset(i as int, 0, half_size as int));
            assert(cy@[i as int] == y + octant_offset(i as int, 1, half_size as int));
            assert(cz@[i as int] == z + octant_offset(i as int, 2, half_size as int));
            assert(prefix_size(cells, x as int, y as int, z as int, size as int, i + 1) == prefix_size(
                cells,
                x as int,
                y as int,
                z as int,
                size as int,
                i as int,
            ) + inner_size(cells, x as int, y as int, z as int, size as int, i as int));
            assert(prefix_size(cells, x as int, y as int, z as int, size as int, i + 1) <= prefix_size(
                cells,
                x as int,
                y as int,
                z as int,
                size as int,
                8,
            ));
        }
        if voxel_grid.sample(cx[i], cy[i], cz[i], half_size) {
            match count_subtree(voxel_grid, cx[i], cy[i], cz[i], half_size, limit - total) {
                Some(c) => {
                    total = total + c;
                },
                None => {
                    return None;
                },
            }
        }
        i += 1;
    }
    Some(total)
}

impl SparseVoxelOctree {
    /// The pool is the octree of the cube of edge `size` with cells `cells`:
    /// node 0 is a non-empty inner sentinel with colour 0 whose child tile,
    /// at index 1, holds the eight octants of the whole cube, and the pool
    /// holds nothing but the sentinel and that subtree.
    pub open spec fn is_octree_of(&self, cells: Seq<Vec<Vec<bool>>>, size: int) -> bool {
        &&& self.node_pool@.len() == 1 + subtree_size(cells, 0, 0, 0, size)
        &&& packs(self.node_pool@[0], false, false, 1, 0)
        &&& subtree_ok(self.node_pool@, cells, 1, 0, 0, 0, size)
    }

    /// Number of nodes in the octree of a grid, or `None` when there are
    /// more than `limit`.
    pub fn pool_len(voxel_grid: &VoxelGrid, limit: u64) -> (r: Option<u64>)
        requires
            voxel_grid.wf(),
        ensures
            r == if 1 + subtree_size(voxel_grid.data@, 0, 0, 0, voxel_grid.size as int) <= limit {
                Some((1 + subtree_size(voxel_grid.data@, 0, 0, 0, voxel_grid.size as int)) as u64)
            } else {
                None::<u64>
            },
    {
        if limit == 0 {
            return None;
        }
        match count_subtree(voxel_grid, 0, 0, 0, voxel_grid.size, limit - 1) {
            Some(c) => Some(c + 1),
            None => None,
        }
    }

    /// Builds the octree of a grid. The pool must stay below `2^30` nodes
    /// (see `pool_len`), so that every child index fits its 30 bits.
    pub fn from(voxel_grid: &VoxelGrid) -> (r: SparseVoxelOctree)
        requires
            voxel_grid.wf(),
            1 + subtree_size(voxel_grid.data@, 0, 0, 0, voxel_grid.size as int) <= CHILD_MASK,
        ensures
            r.is_octree_of(voxel_grid.data@, voxel_grid.size as int),
    {
        let mut svo = SparseVoxelOctree { node_pool: Vec::new() };
        svo.node_pool.push(create_node());
        set_node(&mut svo.node_pool[0], false, false, 1, 0);
        let ghost root = svo.node_pool@[0];
        svo.build_octree(voxel_grid, 0, 0, 0, voxel_grid.size);
        assert(svo.node_pool@[0] == root);
        svo
    }

    /// Bytes that the node pool takes up.
    pub fn size_bytes(&self) -> (r: usize)
        requires
            self.node_pool@.len() * NODE_BYTES <= usize::MAX,
        ensures
            r == self.node_pool@.len() * NODE_BYTES,
    {
        NODE_BYTES * self.node_pool.len()
    }

    /// Appends the tile of the eight children of the cube of edge `size` at
    /// `(x, y, z)`, and after it the subtrees of its occupied inner octants
    /// in octant order, depth first; returns the tile's index.
    fn build_octree(&mut self, voxel_grid: &VoxelGrid, x: usize, y: usize, z: usize, size: usize) -> (tile:
        usize)
        requires
            voxel_grid.wf(),
            x + size <= voxel_grid.size,
            y + size <= voxel_grid.size,
            z + size <= voxel_grid.size,
            old(self).node_pool@.len() + subtree_size(
                voxel_grid.data@,
                x as int,
                y as int,
                z as int,
                size as int,
            ) <= CHILD_MASK,
        ensures
            tile == old(self).node_pool@.len(),
            final(self).node_pool@.len() == tile + subtree_size(
                voxel_grid.data@,
                x as int,
                y as int,
                z as int,
                size as int,
            ),
            forall|k: int| 0 <= k < tile ==> final(self).node_pool@[k] == old(self).node_pool@[k],
            subtree_ok(
                final(self).node_pool@,
                voxel_grid.data@,
                tile as int,
                x as int,
                y as int,
                z as int,
                size as int,
            ),
        decreases size,
    {
        let half_size = size >> 1;
        assert(half_size == size / 2) by (bit_vector)
            requires
                half_size == size >> 1,
        ;
        let ghost cells = voxel_grid.data@;
        proof {
            lemma_subtree_size(cells, x as int, y as int, z as int, size as int);
        }
        // Offsets of child cubes
        let (cx, cy, cz) = child_origins(x, y, z, half_size);

        let node_tile_idx = self.node_pool.len();
        let mut k: usize = 0;
        while k < 8
            invariant
                k <= 8,
                self.node_pool@.len() == node_tile_idx + k,
                forall|j: int| 0 <= j < node_tile_idx ==> self.node_pool@[j] == old(self).node_pool@[j],
                forall|j: int|
                    node_tile_idx <= j < node_tile_idx + k ==> packs(
                        #[trigger] self.node_pool@[j],
                        true,
                        false,
                        0,
                        0,
                    ),
            decreases 8 - k,
        {
            self.node_pool.push(create_node());
            k += 1;
        }

        let mut i: usize = 0;
        while i < 8
            invariant
                voxel_grid.wf(),
                cells == voxel_grid.data@,
                x + size <= voxel_grid.size,
                y + size <= voxel_grid.size,
                z + size <= voxel_grid.size,
                half_size == size / 2,
                node_tile_idx == old(self).node_pool@.len(),
                node_tile_idx + subtree_size(cells, x as int, y as int, z as int, size as int) <= CHILD_MASK,
                subtree_size(cells, x as int, y as int, z as int, size as int) == 8 + prefix_size(cells, x as int, y as int, z as int, size as int, 8),
                forall|a: int, b: int|
                    0 <= a <= b <= 8 ==> #[trigger] prefix_size(cells, x as int, y as int, z as int, size as int, a) <= #[trigger] prefix_size(cells, x as int, y as int, z as int, size as int, b),
                i <= 8,
                forall|j: int| 0 <= j < 8 ==> #[trigger] cx@[j] == x + octant_offset(j, 0, half_size as int),
                forall|j: int| 0 <= j < 8 ==> #[trigger] cy@[j] == y + octant_offset(j, 1, half_size as int),
                forall|j: int| 0 <= j < 8 ==> #[trigger] cz@[j] == z + octant_offset(j, 2, half_size as int),
                self.node_pool@.len() == node_tile_idx + 8 + prefix_size(cells, x as int, y as int, z as int, size as int, i as int),
                forall|j: int| 0 <= j < node_tile_idx ==> self.node_pool@[j] == old(self).node_pool@[j],
                forall|j: int|
                    0 <= j < i ==> #[trigger] child_ok(
                        self.node_pool@,
                        cells,
                        node_tile_idx as int,
                        j,
                        x as int,
                        y as int,
                        z as int,
                        size as int,
                    ),
                forall|j: int|
                    i <= j < 8 ==> packs(
                        #[trigger] self.node_pool@[node_tile_idx + j],
                        true,
                        false,
                        0,
                        0,
                    ),
            decreases 8 - i,
        {
            let ghost before = self.node_pool@;
            proof {
                assert(cx@[i as int] == x + octant_offset(i as int, 0, half_size as int));
                assert(cy@[i as int] == y + octant_offset(i as int, 1, half_size as int));
                assert(cz@[i as int] == z + octant_offset(i as int, 2, half_size as int));
                assert(packs(before[node_tile_idx + i], true, false, 0, 0));
                assert(prefix_size(cells, x as int, y as int, z as int, size as int, i + 1) == prefix_size(cells, x as int, y as int, z as int, size as int, i as int) + inner_size(cells, x as int, y as int, z as int, size as int, i as int));
                assert(prefix_size(cells, x as int, y as int, z as int, size as int, i + 1) <= prefix_size(cells, x as int, y as int, z as int, size as int, 8));
            }
            if voxel_grid.sample(cx[i], cy[i], cz[i], half_size) {
                let color = (cx[i] | (cy[i] << 8) | (cz[i] << 16)) as u32;
                if half_size != 1 {
                    let child_idx = self.build_octree(voxel_grid, cx[i], cy[i], cz[i], half_size);
                    let ghost grown = self.node_pool@;
                    set_node(&mut self.node_pool[node_tile_idx + i], false, false, child_idx, color);
                    proof {
                        lemma_small_index(child_idx);
                        assert(forall|k: int|
                            0 <= k < before.len() && k != node_tile_idx + i ==> self.node_pool@[k]
                                == before[k]);
                        lemma_subtree_frame(
                            grown,
                            self.node_pool@,
                            cells,
                            child_idx as int,
                            cx@[i as int] as int,
                            cy@[i as int] as int,
                            cz@[i as int] as int,
                            half_size as int,
                        );
                    }
                } else {
                    set_node(&mut self.node_pool[node_tile_idx + i], false, true, 0x3fffffff, color);
                    proof {
                        lemma_empty_node();
                    }
                }
            }
            assert(forall|k: int|
                0 <= k < before.len() && k != node_tile_idx + i ==> self.node_pool@[k] == before[k]);
            proof {
                assert forall|j: int| 0 <= j < i implies #[trigger] child_ok(
                    self.node_pool@,
                    cells,
                    node_tile_idx as int,
                    j,
                    x as int,
                    y as int,
                    z as int,
                    size as int,
                ) by {
                    assert(child_ok(
                        before,
                        cells,
                        node_tile_idx as int,
                        j,
                        x as int,
                        y as int,
                        z as int,
                        size as int,
                    ));
                    let n = before[node_tile_idx + j];
                    assert(self.node_pool@[node_tile_idx + j] == n);
                    let half = half_size as int;
                    let cj = (
                        x + octant_offset(j, 0, half),
                        y + octant_offset(j, 1, half),
                        z + octant_offset(j, 2, half),
                    );
                    if block_occupied(cells, cj.0, cj.1, cj.2, half) && half > 1 {
                        lemma_subtree_frame(
                            before,
                            self.node_pool@,
                            cells,
                            node_child(n) as int,
                            cj.0,
                            cj.1,
                            cj.2,
                            half,
                        );
                    }
                }
                assert(child_ok(
                    self.node_pool@,
                    cells,
                    node_tile_idx as int,
                    i as int,
                    x as int,
                    y as int,
                    z as int,
                    size as int,
                ));
            }
            i += 1;
        }
        proof {
            lemma_subtree_children(
                self.node_pool@,
                cells,
                node_tile_idx as int,
                x as int,
                y as int,
                z as int,
                size as int,
            );
        }
        return node_tile_idx;
    }
}

} // verus!
