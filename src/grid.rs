//! The hierarchical occupancy grid: three sparse levels indexed by Morton
//! key, each `16³` times finer than the one before.
use vstd::prelude::*;
use crate::morton::{encode_3d, is_key_of, lemma_key_bound};
use crate::sparse::{capacity_for, lemma_pow2_from_covers, Slice};

verus! {

/// Edge of a brick of cells; each level refines the one before by a brick.
pub const BRICK_WIDTH: usize = 16;

/// Cells of one brick: `16³`.
pub const BRICK_CELLS: usize = BRICK_WIDTH * BRICK_WIDTH * BRICK_WIDTH;

/// Edge of the finest level, in cells: `16³`.
pub const FINEST_EDGE: u64 = 0x1000;

/// Cells of level `k` (0, 1, 2): `16^(3(k + 1))`.
pub open spec fn level_cells(k: int) -> nat {
    if k <= 0 {
        0x1000
    } else if k == 1 {
        0x100_0000
    } else {
        0x10_0000_0000
    }
}

/// Three sparse levels of occupancy, coarsest first.
pub struct Hierarchy {
    levels: Vec<Slice<u8>>,
}

impl View for Hierarchy {
    type V = Seq<Seq<u8>>;

    closed spec fn view(&self) -> Seq<Seq<u8>> {
        Seq::new(self.levels@.len(), |k: int| self.levels@[k]@)
    }
}

impl Hierarchy {
    /// Each level holds room for its cells, as a sparse slice does.
    pub open spec fn wf(&self) -> bool {
        &&& self@.len() == 3
        &&& forall|k: int| 0 <= k < 3 ==> (#[trigger] self@[k]).len() == capacity_for(level_cells(k))
    }

    /// Three empty levels. The finest level spans `2^37` cells, so this
    /// needs a 64-bit `usize`.
    pub fn new() -> (r: Self)
        requires
            usize::MAX == u64::MAX,
        ensures
            r.wf(),
            forall|k: int, i: int| 0 <= k < 3 && 0 <= i < r@[k].len() ==> #[trigger] r@[k][i] == 0,
    {
        let mut levels: Vec<Slice<u8>> = Vec::new();
        let mut level_volume: usize = BRICK_CELLS;
        let mut level: usize = 0;
        while level < 3
            invariant
                usize::MAX == u64::MAX,
                level <= 3,
                levels@.len() == level,
                level < 3 ==> level_volume == level_cells(level as int),
                forall|k: int| 0 <= k < level ==> (#[trigger] levels@[k])@ == Seq::new(
                    capacity_for(level_cells(k)),
                    |i: int| 0u8,
                ),
            decreases 3 - level,
        {
            levels.push(Slice::new(level_volume));
            if level < 2 {
                level_volume = level_volume * BRICK_CELLS;
            }
            level += 1;
        }
        let r = Hierarchy { levels };
        assert forall|k: int, i: int| 0 <= k < 3 && 0 <= i < r@[k].len() implies #[trigger] r@[k][i] == 0 by {
            assert(r@[k] == r.levels@[k]@);
        }
        r
    }

    /// Marks the cell `(x, y, z)` of the finest level occupied, and the
    /// cells of the two coarser levels that hold it: writes 1 at the cell's
    /// Morton key `m` in the finest level, at `m >> 12` in the middle one and
    /// at `m >> 24` in the coarsest. Returns `m`.
    pub fn stamp(&mut self, x: u64, y: u64, z: u64) -> (m: u64)
        requires
            old(self).wf(),
            x < FINEST_EDGE,
            y < FINEST_EDGE,
            z < FINEST_EDGE,
        ensures
            is_key_of(m, x, y, z),
            final(self).wf(),
            final(self)@ == old(self)@.update(2, old(self)@[2].update(m as int, 1u8)).update(
                1,
                old(self)@[1].update((m >> 12u64) as int, 1u8),
            ).update(0, old(self)@[0].update((m >> 24u64) as int, 1u8)),
    {
        let m = encode_3d(x, y, z);
        proof {
            lemma_key_bound(m, x, y, z);
            assert(m >> 12u64 <= m / 0x1000 && m >> 24u64 <= m / 0x100_0000) by (bit_vector);
            assert(self@[0] == self.levels@[0]@);
            assert(self@[1] == self.levels@[1]@);
            assert(self@[2] == self.levels@[2]@);
            lemma_pow2_from_covers(1, level_cells(0));
            lemma_pow2_from_covers(1, level_cells(1));
            lemma_pow2_from_covers(1, level_cells(2));
            self.levels@[2].lemma_len_fits();
        }
        let ghost before = self@;
        let k = m as usize;
        self.levels[2].set(k, 1);
        self.levels[1].set(k >> 12, 1);
        self.levels[0].set(k >> 24, 1);
        proof {
            assert(k >> 12usize == m >> 12u64 && k >> 24usize == m >> 24u64) by (bit_vector)
                requires
                    k == m,
            ;
            assert(self@ =~= before.update(2, before[2].update(m as int, 1u8)).update(
                1,
                before[1].update((m >> 12u64) as int, 1u8),
            ).update(0, before[0].update((m >> 24u64) as int, 1u8)));
        }
        m
    }

    /// The value of cell `i` of level `k`.
    pub fn cell(&self, k: usize, i: usize) -> (r: u8)
        requires
            self.wf(),
            k < 3,
            i < self@[k as int].len(),
        ensures
            r == self@[k as int][i as int],
    {
        assert(self@[k as int] == self.levels@[k as int]@);
        self.levels[k].get(i)
    }
}

} // verus!
