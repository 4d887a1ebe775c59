use svo::grid::Hierarchy;
use svo::morton::encode_3d;
use svo::sparse::Slice;

#[test]
fn sparse_slice() {
    let width: usize = 4096;
    let size = width.pow(3);
    let mut slice = Slice::<usize>::new(size);

    for i in 0..128 {
        slice.set(i * 4096, i);
    }

    for i in 0..128 {
        assert_eq!(slice.get(i * 4096), i);
    }

    for i in 128..256 {
        assert_eq!(slice.get(i * 4096), 0);
    }
}

#[test]
fn sparse_slice_capacity() {
    assert_eq!(Slice::<u8>::new(5).len(), 16);
    assert_eq!(Slice::<u8>::new(8).len(), 16);
    assert_eq!(Slice::<u8>::new(0).len(), 2);
    assert_eq!(Slice::<u8>::new(1).len(), 2);
    assert_eq!(Slice::<u64>::new(4096usize.pow(3)).len(), 1usize << 37);
}

#[test]
fn sparse_slice_overwrite() {
    let mut slice = Slice::<u32>::new(10);
    slice.set(3, 7);
    slice.set(3, 9);
    assert_eq!(slice.get(3), 9);
    assert_eq!(slice.get(2), 0);
    assert_eq!(slice.get(31), 0);
}

#[test]
fn hierarchy_stamps_three_levels() {
    let mut h = Hierarchy::new();
    let m = h.stamp(4095, 17, 2048);
    assert_eq!(m, encode_3d(4095, 17, 2048));
    let k = m as usize;
    assert_eq!(h.cell(2, k), 1);
    assert_eq!(h.cell(1, k >> 12), 1);
    assert_eq!(h.cell(0, k >> 24), 1);
    assert_eq!(h.cell(2, k + 1), 0);
    assert_eq!(h.cell(0, 0), 0);
}

#[test]
fn hierarchy_stamp_origin() {
    let mut h = Hierarchy::new();
    assert_eq!(h.stamp(0, 0, 0), 0);
    assert_eq!(h.cell(2, 0), 1);
    assert_eq!(h.cell(1, 0), 1);
    assert_eq!(h.cell(0, 0), 1);
    assert_eq!(h.stamp(1, 0, 0), 1);
    assert_eq!(h.cell(2, 1), 1);
}
