use svo::voxel::{Grid, Voxel, BrickPool};
use svo::voxel_csv::parse_size;

fn v(x: usize, y: usize, z: usize) -> Voxel {
    Voxel { x, y, z }
}

#[test]
fn grid_sample_blocks() {
    let grid = Grid::new(4, &[v(3, 3, 3), v(0, 1, 0)]);
    assert!(grid.sample(0, 0, 0, 4));
    assert!(grid.sample(2, 2, 2, 2));
    assert!(grid.sample(3, 3, 3, 1));
    assert!(!grid.sample(2, 0, 0, 2));
    assert!(grid.sample(0, 0, 0, 2));
    assert!(!grid.sample(0, 0, 0, 1));
    assert!(!grid.sample(1, 1, 1, 0));
}

#[test]
fn brick_bits() {
    let grid = Grid::new(16, &[v(8, 8, 9), v(9, 8, 8), v(15, 15, 15)]);
    assert!(grid.brick_at(0, 0, 0).is_none());
    let words = grid.brick_at(8, 8, 8).unwrap();
    // cell (0, 0, 1) is bit 1; (1, 0, 0) is bit 64, word 2; (7, 7, 7) is bit 511.
    assert_eq!(words[0], 0b10);
    assert_eq!(words[2], 1);
    assert_eq!(words[15], 1 << 31);
    assert_eq!(words.iter().filter(|w| **w != 0).count(), 3);
}

#[test]
fn brick_pool_keeps_occupied_bricks() {
    let grid = Grid::new(16, &[v(8, 0, 0), v(0, 0, 9), v(1, 1, 1)]);
    let pool = BrickPool::from(&grid);
    // (0, 0, 0) first, then (0, 0, 8); (8, 0, 0) comes last in x-major order.
    assert_eq!(pool.bricks.len(), 3);
    // cell (1, 1, 1) is bit 73: word 2, bit 9
    assert_eq!(pool.bricks[0].data[2], 1 << 9);
    assert_eq!(pool.bricks[1].data[0], 0b10);
    assert_eq!(pool.bricks[2].data[0], 1);
}

#[test]
fn brick_pool_order() {
    let grid = Grid::new(16, &[v(8, 0, 0), v(0, 0, 9)]);
    let pool = BrickPool::from(&grid);
    assert_eq!(pool.bricks.len(), 2);
    assert_eq!(pool.bricks[0].data[0], 0b10);
    assert_eq!(pool.bricks[1].data[0], 1);
}

#[test]
fn empty_grid_has_no_bricks() {
    let grid = Grid::new(8, &[]);
    assert_eq!(BrickPool::from(&grid).bricks.len(), 0);
}

#[test]
fn points_follow_morton_order() {
    let grid = Grid::new(4, &[v(0, 1, 0), v(1, 0, 0), v(3, 3, 3), v(0, 0, 0)]);
    let points = grid.points_in_morton_order();
    assert_eq!(points, vec![v(0, 0, 0), v(1, 0, 0), v(0, 1, 0), v(3, 3, 3)]);
}

#[test]
fn parse_size_reads_edge() {
    assert_eq!(parse_size(&"torus_128.csv".to_string()), Some(128));
    assert_eq!(parse_size(&"data/bunny_64.csv".to_string()), Some(64));
    assert_eq!(parse_size(&"x_+7.csv".to_string()), Some(7));
}

#[test]
fn parse_size_rejects_bad_names() {
    assert_eq!(parse_size(&"torus.csv".to_string()), None);
    assert_eq!(parse_size(&"torus_128".to_string()), None);
    assert_eq!(parse_size(&"a.b_1".to_string()), None);
    assert_eq!(parse_size(&"t_.csv".to_string()), None);
    assert_eq!(parse_size(&"t_1x.csv".to_string()), None);
    assert_eq!(parse_size(&"t_99999999999999999999999.csv".to_string()), None);
}
