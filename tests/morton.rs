use svo::morton::{decode_3d, encode_3d};

#[test]
fn test_morton() {
    let n = 128;
    for x in 0..n {
        for y in 0..n {
            for z in 0..n {
                let m = encode_3d(x, y, z);
                let (x1, y1, z1) = decode_3d(m);
                assert!(x == x1 && y == y1 && z == z1);
            }
        }
    }
}

#[test]
fn morton_interleave() {
    assert_eq!(encode_3d(1, 0, 0), 1);
    assert_eq!(encode_3d(0, 1, 0), 2);
    assert_eq!(encode_3d(0, 0, 1), 4);
    assert_eq!(encode_3d(7, 0, 0), 0b001001001);
    assert_eq!(encode_3d(7, 0, 0), 73);
}

#[test]
fn morton_largest_coordinates() {
    let max = (1u64 << 21) - 1;
    let m = encode_3d(max, max, max);
    assert_eq!(m, (1u64 << 63) - 1);
    assert_eq!(decode_3d(m), (max, max, max));
}

#[test]
fn morton_ignores_high_bits() {
    assert_eq!(encode_3d(1u64 << 21, 0, 0), 0);
    assert_eq!(decode_3d(u64::MAX), ((1u64 << 21) - 1, (1u64 << 21) - 1, (1u64 << 21) - 1));
}

#[test]
fn morton_decode_mixed() {
    let m = encode_3d(5, 9, 300);
    assert_eq!(decode_3d(m), (5, 9, 300));
    assert_eq!(decode_3d(0b110), (0, 1, 1));
}
