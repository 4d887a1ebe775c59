//! Morton (Z-order) keys: three 21-bit coordinates interleaved bit by bit
//! into one 63-bit key.
use vstd::prelude::*;

verus! {

/// Bit `i` of `v`, as 0 or 1.
pub open spec fn bit(v: u64, i: u64) -> u64 {
    (v >> i) & 1
}

/// Position of bit `k` of coordinate `lane` within a key.
pub open spec fn slot(k: u64, lane: u64) -> u64 {
    (3 * k + lane) as u64
}

/// One more than the largest coordinate: coordinates have 21 bits.
pub const COORD_LIMIT: u64 = 0x20_0000;

/// `m` is the Morton key of `(x, y, z)`: for each `k < 21`, bit `3k` of `m`
/// is bit `k` of `x`, bit `3k + 1` is bit `k` of `y` and bit `3k + 2` is bit
/// `k` of `z`; bit 63 of `m` is clear.
pub open spec fn is_key_of(m: u64, x: u64, y: u64, z: u64) -> bool {
    &&& forall|k: u64| k < 21 ==> #[trigger] bit(m, slot(k, 0)) == bit(x, k)
    &&& forall|k: u64| k < 21 ==> #[trigger] bit(m, slot(k, 1)) == bit(y, k)
    &&& forall|k: u64| k < 21 ==> #[trigger] bit(m, slot(k, 2)) == bit(z, k)
    &&& bit(m, 63) == 0
}

/// `c` is lane `lane` of the key `m`: bit `k` of `c` is bit `3k + lane` of
/// `m` for each `k < 21`, and `c` has no higher bit.
pub open spec fn is_lane_of(c: u64, m: u64, lane: u64) -> bool {
    &&& forall|k: u64| k < 21 ==> #[trigger] bit(c, k) == bit(m, slot(k, lane))
    &&& c < 0x20_0000
}

spec fn spread_step(v: u64, shift: u64, mask: u64) -> u64 {
    (v | (v << shift)) & mask
}

spec fn gather_step(v: u64, shift: u64, mask: u64) -> u64 {
    (v ^ (v >> shift)) & mask
}

/// The mask-and-shift ladder that spreads 21 bits three apart.
spec fn spread(x: u64) -> u64 {
    spread_step(
        spread_step(
            spread_step(
                spread_step(spread_step(x & 0x1fffff, 32, 0x1f00000000ffff), 16, 0x1f0000ff0000ff),
                8,
                0x100f00f00f00f00f,
            ),
            4,
            0x10c30c30c30c30c3,
        ),
        2,
        0x1249249249249249,
    )
}

/// The ladder that undoes `spread`, gathering every third bit.
spec fn gather(m: u64) -> u64 {
    gather_step(
        gather_step(
            gather_step(
                gather_step(
                    gather_step(m & 0x1249249249249249, 2, 0x10c30c30c30c30c3),
                    4,
                    0x100f00f00f00f00f,
                ),
                8,
                0x1f0000ff0000ff,
            ),
            16,
            0x1f00000000ffff,
        ),
        32,
        0x1fffff,
    )
}

proof fn lemma_encode(x: u64, y: u64, z: u64, m: u64)
    by (bit_vector)
    requires
        m == spread(x) | (spread(y) << 1u64) | (spread(z) << 2u64),
    ensures
        forall|k: u64| k < 21 ==> #[trigger] bit(m, slot(k, 0)) == bit(x, k),
        forall|k: u64| k < 21 ==> #[trigger] bit(m, slot(k, 1)) == bit(y, k),
        forall|k: u64| k < 21 ==> #[trigger] bit(m, slot(k, 2)) == bit(z, k),
        bit(m, 63) == 0,
{
}

proof fn lemma_decode(m: u64, c: u64, lane: u64)
    by (bit_vector)
    requires
        lane < 3,
        c == gather(m >> lane),
    ensures
        forall|k: u64| k < 21 ==> #[trigger] bit(c, k) == bit(m, slot(k, lane)),
        c < 0x20_0000,
{
}

proof fn lemma_low_bits_agree(a: u64, b: u64)
    by (bit_vector)
    requires
        a < 0x20_0000,
        b < 0x20_0000,
        bit(a, 0) == bit(b, 0),
        bit(a, 1) == bit(b, 1),
        bit(a, 2) == bit(b, 2),
        bit(a, 3) == bit(b, 3),
        bit(a, 4) == bit(b, 4),
        bit(a, 5) == bit(b, 5),
        bit(a, 6) == bit(b, 6),
        bit(a, 7) == bit(b, 7),
        bit(a, 8) == bit(b, 8),
        bit(a, 9) == bit(b, 9),
        bit(a, 10) == bit(b, 10),
        bit(a, 11) == bit(b, 11),
        bit(a, 12) == bit(b, 12),
        bit(a, 13) == bit(b, 13),
        bit(a, 14) == bit(b, 14),
        bit(a, 15) == bit(b, 15),
        bit(a, 16) == bit(b, 16),
        bit(a, 17) == bit(b, 17),
        bit(a, 18) == bit(b, 18),
        bit(a, 19) == bit(b, 19),
        bit(a, 20) == bit(b, 20),
    ensures
        a == b,
{
}

/// A 21-bit value is fixed by its 21 low bits.
proof fn lemma_same_bits(a: u64, b: u64)
    requires
        a < COORD_LIMIT,
        b < COORD_LIMIT,
        forall|k: u64| k < 21 ==> #[trigger] bit(a, k) == bit(b, k),
    ensures
        a == b,
{
    assert(bit(a, 0) == bit(b, 0));
    assert(bit(a, 1) == bit(b, 1));
    assert(bit(a, 2) == bit(b, 2));
    assert(bit(a, 3) == bit(b, 3));
    assert(bit(a, 4) == bit(b, 4));
    assert(bit(a, 5) == bit(b, 5));
    assert(bit(a, 6) == bit(b, 6));
    assert(bit(a, 7) == bit(b, 7));
    assert(bit(a, 8) == bit(b, 8));
    assert(bit(a, 9) == bit(b, 9));
    assert(bit(a, 10) == bit(b, 10));
    assert(bit(a, 11) == bit(b, 11));
    assert(bit(a, 12) == bit(b, 12));
    assert(bit(a, 13) == bit(b, 13));
    assert(bit(a, 14) == bit(b, 14));
    assert(bit(a, 15) == bit(b, 15));
    assert(bit(a, 16) == bit(b, 16));
    assert(bit(a, 17) == bit(b, 17));
    assert(bit(a, 18) == bit(b, 18));
    assert(bit(a, 19) == bit(b, 19));
    assert(bit(a, 20) == bit(b, 20));
    lemma_low_bits_agree(a, b);
}

/// Spreads the 21 low bits of `x` so that bit `k` lands at bit `3k`.
fn bloat_2(x: u64) -> (r: u64)
    ensures
        r == spread(x),
{
    let mut x = x & 0x1fffff;
    x = (x | (x << 32)) & 0x1f00000000ffff;
    x = (x | (x << 16)) & 0x1f0000ff0000ff;
    x = (x | (x << 8)) & 0x100f00f00f00f00f;
    x = (x | (x << 4)) & 0x10c30c30c30c30c3;
    (x | x << 2) & 0x1249249249249249
}

/// Gathers bits `0, 3, 6, ...` of `x` into its 21 low bits.
fn shrink_2(x: u64) -> (r: u64)
    ensures
        r == gather(x),
{
    let mut x = x & 0x1249249249249249;
    x = (x ^ (x >> 2)) & 0x10c30c30c30c30c3;
    x = (x ^ (x >> 4)) & 0x100f00f00f00f00f;
    x = (x ^ (x >> 8)) & 0x1f0000ff0000ff;
    x = (x ^ (x >> 16)) & 0x1f00000000ffff;
    (x ^ (x >> 32)) & 0x1fffff
}

/// The Morton key of `(x, y, z)`; only the 21 low bits of each coordinate
/// take part.
pub fn encode_3d(x: u64, y: u64, z: u64) -> (m: u64)
    ensures
        is_key_of(m, x, y, z),
{
    let m = bloat_2(x) | (bloat_2(y) << 1) | (bloat_2(z) << 2);
    proof {
        lemma_encode(x, y, z, m);
    }
    m
}

/// The three coordinates interleaved in `m`.
pub fn decode_3d(m: u64) -> (r: (u64, u64, u64))
    ensures
        is_lane_of(r.0, m, 0),
        is_lane_of(r.1, m, 1),
        is_lane_of(r.2, m, 2),
{
    let r = (shrink_2(m), shrink_2(m >> 1), shrink_2(m >> 2));
    proof {
        assert(m >> 0u64 == m) by (bit_vector);
        lemma_decode(m, r.0, 0);
        lemma_decode(m, r.1, 1);
        lemma_decode(m, r.2, 2);
    }
    r
}

/// Decoding the key of three coordinates below `2^21` gives them back.
pub proof fn lemma_round_trip(x: u64, y: u64, z: u64, m: u64, d: (u64, u64, u64))
    requires
        x < COORD_LIMIT,
        y < COORD_LIMIT,
        z < COORD_LIMIT,
        is_key_of(m, x, y, z),
        is_lane_of(d.0, m, 0),
        is_lane_of(d.1, m, 1),
        is_lane_of(d.2, m, 2),
    ensures
        d == (x, y, z),
{
    assert forall|k: u64| k < 21 implies #[trigger] bit(d.0, k) == bit(x, k) by {
        assert(bit(m, slot(k, 0)) == bit(x, k));
    }
    assert forall|k: u64| k < 21 implies #[trigger] bit(d.1, k) == bit(y, k) by {
        assert(bit(m, slot(k, 1)) == bit(y, k));
    }
    assert forall|k: u64| k < 21 implies #[trigger] bit(d.2, k) == bit(z, k) by {
        assert(bit(m, slot(k, 2)) == bit(z, k));
    }
    lemma_same_bits(d.0, x);
    lemma_same_bits(d.1, y);
    lemma_same_bits(d.2, z);
}

proof fn lemma_high_bits_clear(m: u64)
    by (bit_vector)
    requires
        bit(m, 36) == 0,
        bit(m, 37) == 0,
        bit(m, 38) == 0,
        bit(m, 39) == 0,
        bit(m, 40) == 0,
        bit(m, 41) == 0,
        bit(m, 42) == 0,
        bit(m, 43) == 0,
        bit(m, 44) == 0,
        bit(m, 45) == 0,
        bit(m, 46) == 0,
        bit(m, 47) == 0,
        bit(m, 48) == 0,
        bit(m, 49) == 0,
        bit(m, 50) == 0,
        bit(m, 51) == 0,
        bit(m, 52) == 0,
        bit(m, 53) == 0,
        bit(m, 54) == 0,
        bit(m, 55) == 0,
        bit(m, 56) == 0,
        bit(m, 57) == 0,
        bit(m, 58) == 0,
        bit(m, 59) == 0,
        bit(m, 60) == 0,
        bit(m, 61) == 0,
        bit(m, 62) == 0,
        bit(m, 63) == 0,
    ensures
        m < 0x10_0000_0000,
{
}

proof fn lemma_small_coord(c: u64)
    by (bit_vector)
    requires
        c < 0x1000,
    ensures
        forall|k: u64| 12 <= k < 64 ==> #[trigger] bit(c, k) == 0,
{
}

/// The key of three coordinates below `2^12` is below `2^36`.
pub proof fn lemma_key_bound(m: u64, x: u64, y: u64, z: u64)
    requires
        is_key_of(m, x, y, z),
        x < 0x1000,
        y < 0x1000,
        z < 0x1000,
    ensures
        m < 0x10_0000_0000,
{
    lemma_small_coord(x);
    lemma_small_coord(y);
    lemma_small_coord(z);
    assert(bit(m, slot(12, 0)) == 0);
    assert(bit(m, slot(12, 1)) == 0);
    assert(bit(m, slot(12, 2)) == 0);
    assert(bit(m, slot(13, 0)) == 0);
    assert(bit(m, slot(13, 1)) == 0);
    assert(bit(m, slot(13, 2)) == 0);
    assert(bit(m, slot(14, 0)) == 0);
    assert(bit(m, slot(14, 1)) == 0);
    assert(bit(m, slot(14, 2)) == 0);
    assert(bit(m, slot(15, 0)) == 0);
    assert(bit(m, slot(15, 1)) == 0);
    assert(bit(m, slot(15, 2)) == 0);
    assert(bit(m, slot(16, 0)) == 0);
    assert(bit(m, slot(16, 1)) == 0);
    assert(bit(m, slot(16, 2)) == 0);
    assert(bit(m, slot(17, 0)) == 0);
    assert(bit(m, slot(17, 1)) == 0);
    assert(bit(m, slot(17, 2)) == 0);
    assert(bit(m, slot(18, 0)) == 0);
    assert(bit(m, slot(18, 1)) == 0);
    assert(bit(m, slot(18, 2)) == 0);
    assert(bit(m, slot(19, 0)) == 0);
    assert(bit(m, slot(19, 1)) == 0);
    assert(bit(m, slot(19, 2)) == 0);
    assert(bit(m, slot(20, 0)) == 0);
    assert(bit(m, slot(20, 1)) == 0);
    assert(bit(m, slot(20, 2)) == 0);
    lemma_high_bits_clear(m);
}

/// A lane of a key has one value.
pub proof fn lemma_lane_unique(c: u64, m: u64, lane: u64)
    requires
        is_lane_of(c, m, lane),
    ensures
        c == choose|d: u64| is_lane_of(d, m, lane),
{
    let d = choose|d: u64| is_lane_of(d, m, lane);
    assert forall|k: u64| k < 21 implies #[trigger] bit(c, k) == bit(d, k) by {
        assert(bit(c, k) == bit(m, slot(k, lane)));
        assert(bit(d, k) == bit(m, slot(k, lane)));
    }
    lemma_same_bits(c, d);
}

} // verus!
