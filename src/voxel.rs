//! Dense occupancy grids: a cube of `size³` cells, each occupied or free.
use vstd::prelude::*;
use crate::morton::{decode_3d, is_lane_of, lemma_lane_unique};

verus! {

/// One occupied cell, as read from a model file.
#[derive(Debug, Clone, Copy, PartialEq, Eq)]
pub struct Voxel {
    pub x: usize,
    pub y: usize,
    pub z: usize,
}

/// Cells are indexed `cells[x][y][z]`; the cube has edge `n`.
pub open spec fn cells_wf(cells: Seq<Vec<Vec<bool>>>, n: int) -> bool {
    &&& cells.len() == n
    &&& forall|a: int| 0 <= a < n ==> (#[trigger] cells[a])@.len() == n
    &&& forall|a: int, b: int| 0 <= a < n && 0 <= b < n ==> (#[trigger] cells[a]@[b])@.len() == n
}

pub open spec fn cell(cells: Seq<Vec<Vec<bool>>>, a: int, b: int, c: int) -> bool {
    cells[a]@[b]@[c]
}

/// Some cell of the block `[x, x+s) × [y, y+s) × [z, z+s)` is occupied.
pub open spec fn block_occupied(
    cells: Seq<Vec<Vec<bool>>>,
    x: int,
    y: int,
    z: int,
    s: int,
) -> bool {
    exists|a: int, b: int, c: int|
        x <= a < x + s && y <= b < y + s && z <= c < z + s && #[trigger] cell(cells, a, b, c)
}

/// The first `k` voxels of `voxels` list the cell `(a, b, c)`.
pub open spec fn listed(voxels: Seq<Voxel>, k: int, a: int, b: int, c: int) -> bool {
    exists|i: int|
        0 <= i < k && #[trigger] voxels[i].x == a && voxels[i].y == b && voxels[i].z == c
}

/// Every voxel lies inside the cube of edge `n`.
pub open spec fn voxels_within(voxels: Seq<Voxel>, n: int) -> bool {
    forall|i: int|
        0 <= i < voxels.len() ==> (#[trigger] voxels[i]).x < n && voxels[i].y < n && voxels[i].z
            < n
}

fn free_row(n: usize) -> (r: Vec<bool>)
    ensures
        r@.len() == n,
        forall|c: int| 0 <= c < n ==> !(#[trigger] r@[c]),
{
    let mut r: Vec<bool> = Vec::new();
    let mut i: usize = 0;
    while i < n
        invariant
            i <= n,
            r@.len() == i,
            forall|c: int| 0 <= c < i ==> !(#[trigger] r@[c]),
        decreases n - i,
    {
        r.push(false);
        i += 1;
    }
    r
}

fn free_plane(n: usize) -> (r: Vec<Vec<bool>>)
    ensures
        r@.len() == n,
        forall|b: int| 0 <= b < n ==> (#[trigger] r@[b])@.len() == n,
        forall|b: int, c: int| 0 <= b < n && 0 <= c < n ==> !(#[trigger] r@[b]@[c]),
{
    let mut r: Vec<Vec<bool>> = Vec::new();
    let mut i: usize = 0;
    while i < n
        invariant
            i <= n,
            r@.len() == i,
            forall|b: int| 0 <= b < i ==> (#[trigger] r@[b])@.len() == n,
            forall|b: int, c: int| 0 <= b < i && 0 <= c < n ==> !(#[trigger] r@[b]@[c]),
        decreases n - i,
    {
        r.push(free_row(n));
        i += 1;
    }
    r
}

/// The cube of edge `n` with exactly the cells that `voxels` lists occupied.
pub(crate) fn cells_from_voxels(n: usize, voxels: &[Voxel]) -> (r: Vec<Vec<Vec<bool>>>)
    requires
        voxels_within(voxels@, n as int),
    ensures
        cells_wf(r@, n as int),
        forall|a: int, b: int, c: int|
            0 <= a < n && 0 <= b < n && 0 <= c < n ==> (#[trigger] cell(r@, a, b, c) <==> listed(
                voxels@,
                voxels@.len() as int,
                a,
                b,
                c,
            )),
{
    let mut r: Vec<Vec<Vec<bool>>> = Vec::new();
    let mut i: usize = 0;
    while i < n
        invariant
            i <= n,
            r@.len() == i,
            forall|a: int| 0 <= a < i ==> (#[trigger] r@[a])@.len() == n,
            forall|a: int, b: int| 0 <= a < i && 0 <= b < n ==> (#[trigger] r@[a]@[b])@.len() == n,
            forall|a: int, b: int, c: int|
                0 <= a < i && 0 <= b < n && 0 <= c < n ==> !(#[trigger] cell(r@, a, b, c)),
        decreases n - i,
    {
        let p = free_plane(n);
        let ghost before = r@;
        r.push(p);
        assert forall|a: int, b: int, c: int|
            0 <= a <= i && 0 <= b < n && 0 <= c < n implies !(#[trigger] cell(r@, a, b, c)) by {
            if a < i {
                assert(r@[a] == before[a]);
                assert(!cell(before, a, b, c));
            } else {
                assert(!p@[b]@[c]);
            }
        }
        i += 1;
    }
    let mut k: usize = 0;
    while k < voxels.len()
        invariant
            k <= voxels@.len(),
            voxels_within(voxels@, n as int),
            cells_wf(r@, n as int),
            forall|a: int, b: int, c: int|
                0 <= a < n && 0 <= b < n && 0 <= c < n ==> (#[trigger] cell(r@, a, b, c)
                    <==> listed(voxels@, k as int, a, b, c)),
        decreases voxels@.len() - k,
    {
        let v = voxels[k];
        let ghost before = r@;
        r[v.x][v.y][v.z] = true;
        assert forall|a: int, b: int, c: int|
            0 <= a < n && 0 <= b < n && 0 <= c < n implies #[trigger] cell(r@, a, b, c) == (cell(
                before,
                a,
                b,
                c,
            ) || (a == v.x && b == v.y && c == v.z)) by {}
        assert forall|a: int, b: int, c: int|
            0 <= a < n && 0 <= b < n && 0 <= c < n implies (#[trigger] cell(r@, a, b, c)
                <==> listed(voxels@, k + 1, a, b, c)) by {
            if listed(voxels@, k + 1, a, b, c) && !(a == v.x && b == v.y && c == v.z) {
                let i = choose|i: int|
                    0 <= i < k + 1 && #[trigger] voxels@[i].x == a && voxels@[i].y == b
                        && voxels@[i].z == c;
                assert(i != k);
            }
            if a == v.x && b == v.y && c == v.z {
                assert(voxels@[k as int].x == a);
            }
        }
        k += 1;
    }
    r
}

/// Whether any cell of the block of edge `s` at `(x, y, z)` is occupied;
/// stops at the first occupied cell.
pub(crate) fn scan_block(
    cells: &Vec<Vec<Vec<bool>>>,
    n: usize,
    x: usize,
    y: usize,
    z: usize,
    s: usize,
) -> (r: bool)
    requires
        cells_wf(cells@, n as int),
        x + s <= n,
        y + s <= n,
        z + s <= n,
    ensures
        r == block_occupied(cells@, x as int, y as int, z as int, s as int),
{
    let mut x1 = x;
    while x1 < x + s
        invariant
            cells_wf(cells@, n as int),
            x + s <= n,
            y + s <= n,
            z + s <= n,
            x <= x1 <= x + s,
            forall|a: int, b: int, c: int|
                x <= a < x1 && y <= b < y + s && z <= c < z + s ==> !#[trigger] cell(
                    cells@,
                    a,
                    b,
                    c,
                ),
        decreases x + s - x1,
    {
        let mut y1 = y;
        while y1 < y + s
            invariant
                cells_wf(cells@, n as int),
                x + s <= n,
                y + s <= n,
                z + s <= n,
                x <= x1 < x + s,
                y <= y1 <= y + s,
                forall|a: int, b: int, c: int|
                    x <= a < x1 && y <= b < y + s && z <= c < z + s ==> !#[trigger] cell(
                        cells@,
                        a,
                        b,
                        c,
                    ),
                forall|b: int, c: int|
                    y <= b < y1 && z <= c < z + s ==> !#[trigger] cell(cells@, x1 as int, b, c),
            decreases y + s - y1,
        {
            let mut z1 = z;
            while z1 < z + s
                invariant
                    cells_wf(cells@, n as int),
                    x + s <= n,
                    y + s <= n,
                    z + s <= n,
                    x <= x1 < x + s,
                    y <= y1 < y + s,
                    z <= z1 <= z + s,
                    forall|a: int, b: int, c: int|
                        x <= a < x1 && y <= b < y + s && z <= c < z + s ==> !#[trigger] cell(
                            cells@,
                            a,
                            b,
                            c,
                        ),
                    forall|b: int, c: int|
                        y <= b < y1 && z <= c < z + s ==> !#[trigger] cell(
                            cells@,
                            x1 as int,
                            b,
                            c,
                        ),
                    forall|c: int|
                        z <= c < z1 ==> !#[trigger] cell(cells@, x1 as int, y1 as int, c),
                decreases z + s - z1,
            {
                if cells[x1][y1][z1] {
                    assert(cell(cells@, x1 as int, y1 as int, z1 as int));
                    return true;
                }
                z1 += 1;
            }
            y1 += 1;
        }
        x1 += 1;
    }
    false
}

/// A dense cube of occupancy cells, indexed `data[x][y][z]`.
pub struct Grid {
    pub data: Vec<Vec<Vec<bool>>>,
    pub size: usize,
}

/// Edge of a brick: bricks are blocks of `8³` cells.
pub const BRICK_SIZE: usize = 8;

pub const BRICK_VOLUME: usize = BRICK_SIZE * BRICK_SIZE * BRICK_SIZE;

/// Number of 32-bit words that hold one bit per cell of a brick.
pub const BRICK_N_INTS: usize = BRICK_VOLUME / 32;

/// Bit `b` of the word `w` is set.
pub open spec fn word_bit(w: u32, b: int) -> bool {
    (w >> (b as u32)) & 1 == 1
}

/// `words` holds the brick at `(x, y, z)`: cell `i` of the brick, at offset
/// `(i / 64, (i / 8) % 8, i % 8)`, is bit `i % 32` of word `i / 32`.
pub open spec fn is_brick_of(
    words: Seq<u32>,
    cells: Seq<Vec<Vec<bool>>>,
    x: int,
    y: int,
    z: int,
) -> bool {
    &&& words.len() == BRICK_N_INTS
    &&& forall|i: int|
        0 <= i < BRICK_VOLUME ==> #[trigger] word_bit(words[i / 32], i % 32) == cell(
            cells,
            x + i / 64,
            y + (i / 8) % 8,
            z + i % 8,
        )
}

proof fn lemma_set_bit(w: u32, b: u32, c: u32)
    by (bit_vector)
    requires
        b < 32,
        c < 32,
    ensures
        ((w | (1u32 << b)) >> c) & 1 == 1 <==> (c == b || (w >> c) & 1 == 1),
{
}

proof fn lemma_zero_word(c: u32)
    by (bit_vector)
    requires
        c < 32,
    ensures
        (0u32 >> c) & 1 != 1,
{
}

proof fn lemma_brick_offset(p: int, q: int, r: int)
    requires
        0 <= p < 8,
        0 <= q < 8,
        0 <= r < 8,
    ensures
        0 <= p * 64 + q * 8 + r < 512,
        (p * 64 + q * 8 + r) / 64 == p,
        ((p * 64 + q * 8 + r) / 8) % 8 == q,
        (p * 64 + q * 8 + r) % 8 == r,
{
}

impl Grid {
    pub open spec fn wf(&self) -> bool {
        cells_wf(self.data@, self.size as int)
    }

    pub open spec fn occupied(&self, a: int, b: int, c: int) -> bool {
        cell(self.data@, a, b, c)
    }

    /// The grid of edge `size` whose occupied cells are exactly those listed.
    pub fn new(size: usize, voxels: &[Voxel]) -> (r: Self)
        requires
            voxels_within(voxels@, size as int),
        ensures
            r.wf(),
            r.size == size,
            forall|a: int, b: int, c: int|
                0 <= a < size && 0 <= b < size && 0 <= c < size ==> (#[trigger] r.occupied(a, b, c)
                    <==> listed(voxels@, voxels@.len() as int, a, b, c)),
    {
        let data = cells_from_voxels(size, voxels);
        Self { data, size }
    }

    /// Whether any cell of the block of edge `size` at `(x, y, z)` is occupied.
    pub fn sample(&self, x: usize, y: usize, z: usize, size: usize) -> (r: bool)
        requires
            self.wf(),
            x + size <= self.size,
            y + size <= self.size,
            z + size <= self.size,
        ensures
            r == block_occupied(self.data@, x as int, y as int, z as int, size as int),
    {
        scan_block(&self.data, self.size, x, y, z, size)
    }

    /// The brick of `8³` cells at `(x, y, z)` as a bit mask, or `None` when
    /// none of its cells is occupied.
    pub fn brick_at(&self, x: usize, y: usize, z: usize) -> (r: Option<[u32; BRICK_N_INTS]>)
        requires
            self.wf(),
            x + BRICK_SIZE <= self.size,
            y + BRICK_SIZE <= self.size,
            z + BRICK_SIZE <= self.size,
        ensures
            r is Some <==> block_occupied(self.data@, x as int, y as int, z as int, 8),
            r matches Some(d) ==> is_brick_of(d@, self.data@, x as int, y as int, z as int),
    {
        let mut data = [0u32; BRICK_N_INTS];
        let mut is_occupied = false;
        let mut i: usize = 0;
        assert forall|j: int| 0 <= j < BRICK_VOLUME implies !#[trigger] word_bit(
            data@[j / 32],
            j % 32,
        ) by {
            lemma_zero_word((j % 32) as u32);
        }
        while i < BRICK_VOLUME
            invariant
                self.wf(),
                x + BRICK_SIZE <= self.size,
                y + BRICK_SIZE <= self.size,
                z + BRICK_SIZE <= self.size,
                i <= BRICK_VOLUME,
                data@.len() == BRICK_N_INTS,
                forall|j: int|
                    0 <= j < i ==> #[trigger] word_bit(data@[j / 32], j % 32) == cell(
                        self.data@,
                        x + j / 64,
                        y + (j / 8) % 8,
                        z + j % 8,
                    ),
                forall|j: int| i <= j < BRICK_VOLUME ==> !#[trigger] word_bit(data@[j / 32], j % 32),
                is_occupied <==> exists|j: int|
                    0 <= j < i && #[trigger] cell(
                        self.data@,
                        x + j / 64,
                        y + (j / 8) % 8,
                        z + j % 8,
                    ),
            decreases BRICK_VOLUME - i,
        {
            let x1 = i / (BRICK_SIZE * BRICK_SIZE);
            let y1 = (i / BRICK_SIZE) % BRICK_SIZE;
            let z1 = i % BRICK_SIZE;
            let occ = self.data[x + x1][y + y1][z + z1];
            assert(occ == cell(self.data@, x + i / 64, y + (i / 8) % 8, z + i % 8));
            if occ {
                let int_idx = i / 32;
                let bit_idx = i % 32;
                let ghost before = data@;
                data[int_idx] = data[int_idx] | (1u32 << (bit_idx as u32));
                assert forall|j: int| 0 <= j < BRICK_VOLUME && j != i implies #[trigger] word_bit(
                    data@[j / 32],
                    j % 32,
                ) == word_bit(before[j / 32], j % 32) by {
                    if j / 32 == int_idx {
                        lemma_set_bit(before[j / 32], bit_idx as u32, (j % 32) as u32);
                    }
                }
                proof {
                    lemma_set_bit(before[int_idx as int], bit_idx as u32, bit_idx as u32);
                }
                is_occupied = true;
            }
            assert forall|j: int| 0 <= j < i + 1 && #[trigger] cell(
                self.data@,
                x + j / 64,
                y + (j / 8) % 8,
                z + j % 8,
            ) implies is_occupied by {
                if j < i {
                    assert(exists|j: int|
                        0 <= j < i && #[trigger] cell(
                            self.data@,
                            x + j / 64,
                            y + (j / 8) % 8,
                            z + j % 8,
                        ));
                }
            }
            i += 1;
        }
        proof {
            assert forall|a: int, b: int, c: int|
                x <= a < x + 8 && y <= b < y + 8 && z <= c < z + 8 && #[trigger] cell(
                    self.data@,
                    a,
                    b,
                    c,
                ) implies is_occupied by {
                lemma_brick_offset(a - x, b - y, c - z);
                let j = (a - x) * 64 + (b - y) * 8 + (c - z);
                assert(cell(self.data@, x + j / 64, y + (j / 8) % 8, z + j % 8));
            }
            if is_occupied {
                let j = choose|j: int|
                    0 <= j < BRICK_VOLUME && #[trigger] cell(
                        self.data@,
                        x + j / 64,
                        y + (j / 8) % 8,
                        z + j % 8,
                    );
                assert(cell(self.data@, x + j / 64, y + (j / 8) % 8, z + j % 8));
            }
        }
        if is_occupied {
            Some(data)
        } else {
            None
        }
    }
}

/// The cells of one brick, one bit each (see `is_brick_of`).
pub struct Brick {
    pub data: [u32; BRICK_N_INTS],
}

/// The occupied bricks of a grid, in the order the grid is scanned.
pub struct BrickPool {
    pub bricks: Vec<Brick>,
}

/// Origins of the occupied bricks among the first `k` of the row at brick
/// coordinates `(bx, by)`.
pub open spec fn row_origins(cells: Seq<Vec<Vec<bool>>>, bx: int, by: int, k: int) -> Seq<
    (int, int, int),
>
    decreases k,
{
    if k <= 0 {
        Seq::empty()
    } else {
        let o = (8 * bx, 8 * by, 8 * (k - 1));
        row_origins(cells, bx, by, k - 1) + if block_occupied(cells, o.0, o.1, o.2, 8) {
            seq![o]
        } else {
            Seq::empty()
        }
    }
}

/// Origins of the occupied bricks among the first `k` rows of the plane `bx`.
pub open spec fn plane_origins(cells: Seq<Vec<Vec<bool>>>, nb: int, bx: int, k: int) -> Seq<
    (int, int, int),
>
    decreases k,
{
    if k <= 0 {
        Seq::empty()
    } else {
        plane_origins(cells, nb, bx, k - 1) + row_origins(cells, bx, k - 1, nb)
    }
}

/// Origins of the occupied bricks among the first `k` planes.
pub open spec fn cube_origins(cells: Seq<Vec<Vec<bool>>>, nb: int, k: int) -> Seq<(int, int, int)>
    decreases k,
{
    if k <= 0 {
        Seq::empty()
    } else {
        cube_origins(cells, nb, k - 1) + plane_origins(cells, nb, k - 1, nb)
    }
}

/// Each brick holds the cells at the matching origin.
pub open spec fn bricks_match(
    bricks: Seq<Brick>,
    cells: Seq<Vec<Vec<bool>>>,
    origins: Seq<(int, int, int)>,
) -> bool {
    &&& bricks.len() == origins.len()
    &&& forall|i: int|
        0 <= i < bricks.len() ==> is_brick_of(
            (#[trigger] bricks[i]).data@,
            cells,
            origins[i].0,
            origins[i].1,
            origins[i].2,
        )
}

impl Grid {
    /// Origins of the occupied bricks, `x` slowest and `z` fastest.
    pub open spec fn brick_origins(&self) -> Seq<(int, int, int)> {
        cube_origins(self.data@, self.size as int / 8, self.size as int / 8)
    }
}

impl BrickPool {
    /// The occupied bricks of a grid whose edge is a multiple of 8.
    pub fn from(grid: &Grid) -> (r: BrickPool)
        requires
            grid.wf(),
            grid.size % 8 == 0,
        ensures
            bricks_match(r.bricks@, grid.data@, grid.brick_origins()),
    {
        let nb = grid.size / BRICK_SIZE;
        let ghost cells = grid.data@;
        let mut bricks: Vec<Brick> = Vec::new();
        let mut bx: usize = 0;
        while bx < nb
            invariant
                grid.wf(),
                grid.size % 8 == 0,
                nb == grid.size / 8,
                cells == grid.data@,
                bx <= nb,
                bricks_match(bricks@, cells, cube_origins(cells, nb as int, bx as int)),
            decreases nb - bx,
        {
            let mut by: usize = 0;
            assert(cube_origins(cells, nb as int, bx as int) =~= cube_origins(
                cells,
                nb as int,
                bx as int,
            ) + plane_origins(cells, nb as int, bx as int, 0));
            while by < nb
                invariant
                    grid.wf(),
                    grid.size % 8 == 0,
                    nb == grid.size / 8,
                    cells == grid.data@,
                    bx < nb,
                    by <= nb,
                    bricks_match(
                        bricks@,
                        cells,
                        cube_origins(cells, nb as int, bx as int) + plane_origins(
                            cells,
                            nb as int,
                            bx as int,
                            by as int,
                        ),
                    ),
                decreases nb - by,
            {
                let mut bz: usize = 0;
                assert(cube_origins(cells, nb as int, bx as int) + plane_origins(
                    cells,
                    nb as int,
                    bx as int,
                    by as int,
                ) =~= cube_origins(cells, nb as int, bx as int) + plane_origins(
                    cells,
                    nb as int,
                    bx as int,
                    by as int,
                ) + row_origins(cells, bx as int, by as int, 0));
                while bz < nb
                    invariant
                        grid.wf(),
                        grid.size % 8 == 0,
                        nb == grid.size / 8,
                        cells == grid.data@,
                        bx < nb,
                        by < nb,
                        bz <= nb,
                        bricks_match(
                            bricks@,
                            cells,
                            cube_origins(cells, nb as int, bx as int) + plane_origins(
                                cells,
                                nb as int,
                                bx as int,
                                by as int,
                            ) + row_origins(cells, bx as int, by as int, bz as int),
                        ),
                    decreases nb - bz,
                {
                    let ghost done = cube_origins(cells, nb as int, bx as int) + plane_origins(
                        cells,
                        nb as int,
                        bx as int,
                        by as int,
                    ) + row_origins(cells, bx as int, by as int, bz as int);
                    let ghost o = (8 * bx as int, 8 * by as int, 8 * bz as int);
                    assert(row_origins(cells, bx as int, by as int, bz + 1) == row_origins(
                        cells,
                        bx as int,
                        by as int,
                        bz as int,
                    ) + if block_occupied(cells, o.0, o.1, o.2, 8) {
                        seq![o]
                    } else {
                        Seq::empty()
                    });
                    match grid.brick_at(bx * BRICK_SIZE, by * BRICK_SIZE, bz * BRICK_SIZE) {
                        Some(data) => {
                            bricks.push(Brick { data });
                            assert(done + seq![o] =~= cube_origins(cells, nb as int, bx as int)
                                + plane_origins(cells, nb as int, bx as int, by as int)
                                + row_origins(cells, bx as int, by as int, bz + 1));
                        },
                        None => {
                            assert(done =~= cube_origins(cells, nb as int, bx as int)
                                + plane_origins(cells, nb as int, bx as int, by as int)
                                + row_origins(cells, bx as int, by as int, bz + 1));
                        },
                    }
                    bz += 1;
                }
                assert(cube_origins(cells, nb as int, bx as int) + plane_origins(
                    cells,
                    nb as int,
                    bx as int,
                    by as int,
                ) + row_origins(cells, bx as int, by as int, nb as int) =~= cube_origins(
                    cells,
                    nb as int,
                    bx as int,
                ) + plane_origins(cells, nb as int, bx as int, by + 1));
                by += 1;
            }
            assert(cube_origins(cells, nb as int, bx as int) + plane_origins(
                cells,
                nb as int,
                bx as int,
                nb as int,
            ) =~= cube_origins(cells, nb as int, bx + 1));
            bx += 1;
        }
        BrickPool { bricks }
    }
}

/// Coordinate `lane` (0: x, 1: y, 2: z) of the Morton key `m`.
pub open spec fn lane_of(m: u64, lane: u64) -> u64 {
    choose|c: u64| is_lane_of(c, m, lane)
}

/// The occupied cells among the keys `0..k`, in key order.
pub open spec fn morton_points_upto(cells: Seq<Vec<Vec<bool>>>, n: int, k: int) -> Seq<Voxel>
    decreases k,
{
    if k <= 0 {
        Seq::empty()
    } else {
        let m = (k - 1) as u64;
        let (x, y, z) = (lane_of(m, 0) as int, lane_of(m, 1) as int, lane_of(m, 2) as int);
        morton_points_upto(cells, n, k - 1) + if x < n && y < n && z < n && cell(cells, x, y, z) {
            seq![Voxel { x: x as usize, y: y as usize, z: z as usize }]
        } else {
            Seq::empty()
        }
    }
}

impl Grid {
    /// The occupied cells in Morton order, so that cells listed one after
    /// another lie close together in space: the keys `0..size³` are decoded
    /// in turn and the occupied cells among them kept. For an edge that is a
    /// power of two these keys cover the cube exactly.
    pub fn points_in_morton_order(&self) -> (r: Vec<Voxel>)
        requires
            self.wf(),
            self.size <= 0x20_0000,
        ensures
            r@ == morton_points_upto(
                self.data@,
                self.size as int,
                self.size * self.size * self.size,
            ),
    {
        let n = self.size as u64;
        assert(n * n <= 0x400_0000_0000 && n * n * n <= 0x8000_0000_0000_0000) by (nonlinear_arith)
            requires
                n <= 0x20_0000,
        ;
        let volume = n * n * n;
        let mut points: Vec<Voxel> = Vec::new();
        let mut m: u64 = 0;
        while m < volume
            invariant
                self.wf(),
                n == self.size,
                volume == self.size * self.size * self.size,
                m <= volume,
                points@ == morton_points_upto(self.data@, n as int, m as int),
            decreases volume - m,
        {
            let (x, y, z) = decode_3d(m);
            proof {
                lemma_lane_unique(x, m, 0);
                lemma_lane_unique(y, m, 1);
                lemma_lane_unique(z, m, 2);
            }
            if x < n && y < n && z < n && self.data[x as usize][y as usize][z as usize] {
                points.push(Voxel { x: x as usize, y: y as usize, z: z as usize });
            }
            m += 1;
        }
        points
    }
}

} // verus!
