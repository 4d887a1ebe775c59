//! A lazily filled array: every element reads as zero until written, and
//! only written elements take up memory.
use vstd::prelude::*;
use std::collections::HashMap;

verus! {

broadcast use vstd::std_specs::hash::group_hash_axioms;

/// Element types with a zero value, which unwritten elements read as.
pub trait Zero: Sized + Copy {
    spec fn spec_zero() -> Self;

    fn zero() -> (r: Self)
        ensures
            r == Self::spec_zero(),
    ;
}

impl Zero for u8 {
    open spec fn spec_zero() -> u8 {
        0
    }

    fn zero() -> (r: u8) {
        0
    }
}

impl Zero for u32 {
    open spec fn spec_zero() -> u32 {
        0
    }

    fn zero() -> (r: u32) {
        0
    }
}

impl Zero for u64 {
    open spec fn spec_zero() -> u64 {
        0
    }

    fn zero() -> (r: u64) {
        0
    }
}

impl Zero for usize {
    open spec fn spec_zero() -> usize {
        0
    }

    fn zero() -> (r: usize) {
        0
    }
}

/// The least power of two that is at least `len`, searching up from `p`.
pub open spec fn pow2_from(p: nat, len: nat) -> nat
    decreases len - p,
{
    if p >= len || p == 0 {
        p
    } else if 2 * p >= len {
        2 * p
    } else {
        pow2_from(2 * p, len)
    }
}

/// The least power of two that is at least `len`.
pub open spec fn next_pow2(len: nat) -> nat {
    pow2_from(1, len)
}

pub proof fn lemma_pow2_from_covers(p: nat, len: nat)
    requires
        p >= 1,
    ensures
        pow2_from(p, len) >= len,
        pow2_from(p, len) >= p,
    decreases len - p,
{
    if p < len && 2 * p < len {
        lemma_pow2_from_covers(2 * p, len);
    }
}

/// Elements that a slice asked for `len` elements holds: twice the next
/// power of two.
pub open spec fn capacity_for(len: nat) -> nat {
    2 * next_pow2(len)
}

fn next_power_of_two(len: usize) -> (p: usize)
    requires
        len <= usize::MAX / 4,
    ensures
        p == next_pow2(len as nat),
        p <= 2 * len || p == 1,
{
    let mut p: usize = 1;
    while p < len
        invariant
            1 <= p,
            p <= 2 * len || p == 1,
            len <= usize::MAX / 4,
            pow2_from(p as nat, len as nat) == next_pow2(len as nat),
        decreases 2 * len + 1 - p,
    {
        p = p * 2;
    }
    p
}

/// An array of zeros of fixed length, written sparsely.
pub struct Slice<T> {
    len: usize,
    cells: HashMap<usize, T>,
}

impl<T: Zero> View for Slice<T> {
    type V = Seq<T>;

    closed spec fn view(&self) -> Seq<T> {
        Seq::new(
            self.len as nat,
            |i: int|
                if self.cells@.contains_key(i as usize) {
                    self.cells@[i as usize]
                } else {
                    T::spec_zero()
                },
        )
    }
}

impl<T: Zero> Slice<T> {
    /// A slice of `capacity_for(len)` zeros.
    pub fn new(len: usize) -> (r: Self)
        requires
            len <= usize::MAX / 4,
        ensures
            r@ == Seq::new(capacity_for(len as nat), |i: int| T::spec_zero()),
    {
        let p = next_power_of_two(len);
        let cap = p * 2;
        let r = Slice { len: cap, cells: HashMap::new() };
        assert(r@ =~= Seq::new(capacity_for(len as nat), |i: int| T::spec_zero()));
        r
    }

    /// The length fits a `usize`.
    pub proof fn lemma_len_fits(&self)
        ensures
            self@.len() <= usize::MAX,
    {
    }

    /// Number of elements.
    pub fn len(&self) -> (r: usize)
        ensures
            r == self@.len(),
    {
        self.len
    }

    /// Element `i`.
    pub fn get(&self, i: usize) -> (r: T)
        requires
            i < self@.len(),
        ensures
            r == self@[i as int],
    {
        match self.cells.get(&i) {
            Some(v) => *v,
            None => T::zero(),
        }
    }

    /// Writes `v` at `i`.
    pub fn set(&mut self, i: usize, v: T)
        requires
            i < old(self)@.len(),
        ensures
            final(self)@ == old(self)@.update(i as int, v),
    {
        self.cells.insert(i, v);
        assert(self@ =~= old(self)@.update(i as int, v));
    }
}

} // verus!
