use svo::bvh::{morton_order, BvhTopology, LEAF_BIT};
use svo::morton::encode_3d;
use svo::util::clamp;

fn links(t: &BvhTopology) -> Vec<(u32, u32)> {
    t.nodes.iter().map(|n| (n.left, n.right)).collect()
}

#[test]
fn bvh_build_odd_tail() {
    let keys: Vec<u64> = (0..3u64).map(|i| encode_3d(i * 10, 0, 0)).collect();
    let t = BvhTopology::build(&keys);
    assert_eq!(t.nodes.len(), 4);
    assert_eq!(t.root, 3);
    assert_eq!(t.leaf_order, vec![0, 1, 2]);
    assert_eq!(
        links(&t),
        vec![(0, 0), (LEAF_BIT, 1 | LEAF_BIT), (2 | LEAF_BIT, 0), (1, 2)]
    );
}

#[test]
fn bvh_sorts_leaves_by_key() {
    let keys = vec![40u64, 7, 40, 3];
    let t = BvhTopology::build(&keys);
    assert_eq!(t.leaf_order, vec![3, 1, 0, 2]);
    assert_eq!(t.nodes.len(), 4);
    assert_eq!(t.root, 3);
    assert_eq!(links(&t)[3], (1, 2));
}

#[test]
fn bvh_single_instance() {
    let t = BvhTopology::build(&vec![9]);
    assert_eq!(t.root, 1);
    assert_eq!(links(&t), vec![(0, 0), (LEAF_BIT, 0)]);
}

#[test]
fn bvh_five_instances() {
    let keys: Vec<u64> = vec![5, 4, 3, 2, 1];
    let t = BvhTopology::build(&keys);
    assert_eq!(t.leaf_order, vec![4, 3, 2, 1, 0]);
    assert_eq!(
        links(&t),
        vec![
            (0, 0),
            (LEAF_BIT, 1 | LEAF_BIT),
            (2 | LEAF_BIT, 3 | LEAF_BIT),
            (4 | LEAF_BIT, 0),
            (1, 2),
            (3, 4),
        ]
    );
    assert_eq!(t.root, 5);
}

#[test]
fn morton_order_is_stable() {
    assert_eq!(morton_order(&vec![2, 1, 2, 1, 0]), vec![4, 1, 3, 0, 2]);
    assert_eq!(morton_order(&vec![]), Vec::<usize>::new());
}

#[test]
fn clamp_limits() {
    assert_eq!(clamp(5, 0, 3), 3);
    assert_eq!(clamp(-1, 0, 3), 0);
    assert_eq!(clamp(2, 0, 3), 2);
    assert_eq!(clamp(95.0f32, -89.0, 89.0), 89.0);
    assert_eq!(clamp(-90.5f32, -89.0, 89.0), -89.0);
}
