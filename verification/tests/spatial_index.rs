use boids::spatial::{CellKey, SparseSpatialHash};
use boids::vec2::Vec2;

fn v(x: i64, y: i64) -> Vec2 {
    Vec2 { x, y }
}

#[test]
fn index_rounding_nearest_cell() {
    let h = SparseSpatialHash::new(35_000);
    assert_eq!(h.get_index(v(0, 0)), CellKey { x: 0, y: 0 });
    assert_eq!(h.get_index(v(10_000, 0)), CellKey { x: 0, y: 0 });
    assert_eq!(h.get_index(v(17_499, 0)), CellKey { x: 0, y: 0 });
    assert_eq!(h.get_index(v(40_000, -40_000)), CellKey { x: 1, y: -1 });
    assert_eq!(h.get_index(v(100_000, 0)), CellKey { x: 3, y: 0 });
}

#[test]
fn index_rounding_half_away_from_zero() {
    let h = SparseSpatialHash::new(35_000);
    // Exactly at a cell edge: rounded to the nearer (higher-magnitude) cell.
    assert_eq!(h.get_index(v(17_500, 0)), CellKey { x: 1, y: 0 });
    assert_eq!(h.get_index(v(-17_500, 0)), CellKey { x: -1, y: 0 });
    assert_eq!(h.get_index(v(0, 17_500)), CellKey { x: 0, y: 1 });
}

#[test]
fn insert_creates_cell() {
    let mut h = SparseSpatialHash::new(35_000);
    assert!(h.get_cell(CellKey { x: 0, y: 0 }).is_none());
    h.insert(7, v(0, 0));
    assert_eq!(h.get_cell(CellKey { x: 0, y: 0 }), Some(vec![7]));
    h.insert(9, v(10_000, 0));
    assert_eq!(h.get_cell(CellKey { x: 0, y: 0 }), Some(vec![7, 9]));
}

#[test]
fn remove_deletes_empty_cell() {
    let mut h = SparseSpatialHash::new(35_000);
    h.insert(1, v(0, 0));
    h.insert(2, v(5_000, 0));
    h.remove(1, v(0, 0));
    assert_eq!(h.get_cell(CellKey { x: 0, y: 0 }), Some(vec![2]));
    h.remove(2, v(5_000, 0));
    // The emptied cell key is absent, not present with an empty list.
    assert!(h.get_cell(CellKey { x: 0, y: 0 }).is_none());
}

#[test]
fn remove_missing_agent_is_noop() {
    let mut h = SparseSpatialHash::new(35_000);
    h.insert(1, v(0, 0));
    h.remove(42, v(0, 0));
    h.remove(1, v(200_000, 0));
    assert_eq!(h.get_cell(CellKey { x: 0, y: 0 }), Some(vec![1]));
}

#[test]
fn update_moves_between_cells() {
    let mut h = SparseSpatialHash::new(35_000);
    h.insert(5, v(0, 0));
    h.update(5, v(0, 0), v(100_000, 0));
    // The agent now sits in exactly one cell: the one of its new position.
    assert!(h.get_cell(CellKey { x: 0, y: 0 }).is_none());
    assert_eq!(h.get_cell(CellKey { x: 3, y: 0 }), Some(vec![5]));
}

#[test]
fn update_same_cell_is_noop() {
    let mut h = SparseSpatialHash::new(35_000);
    h.insert(5, v(0, 0));
    h.update(5, v(0, 0), v(10_000, 0));
    assert_eq!(h.get_cell(CellKey { x: 0, y: 0 }), Some(vec![5]));
}

#[test]
fn neighbors_adjacent_cells() {
    let mut h = SparseSpatialHash::new(35_000);
    h.insert(1, v(0, 0));
    h.insert(2, v(40_000, 0));
    let from_a: Vec<usize> = h.get_neighbors(v(0, 0)).into_iter().flatten().collect();
    let from_b: Vec<usize> = h.get_neighbors(v(40_000, 0)).into_iter().flatten().collect();
    assert!(from_a.contains(&1) && from_a.contains(&2));
    assert!(from_b.contains(&1) && from_b.contains(&2));
}

#[test]
fn neighbors_exclude_far_cells() {
    let mut h = SparseSpatialHash::new(35_000);
    h.insert(1, v(0, 0));
    h.insert(3, v(80_000, 0));
    let from_a: Vec<usize> = h.get_neighbors(v(0, 0)).into_iter().flatten().collect();
    assert!(from_a.contains(&1));
    assert!(!from_a.contains(&3));
}

#[test]
fn neighbors_boundary_rounding() {
    let mut h = SparseSpatialHash::new(35_000);
    // One agent just below the cell edge, one exactly on it: cells 0 and 1,
    // adjacent, so each sees the other.
    h.insert(1, v(17_499, 0));
    h.insert(2, v(17_500, 0));
    assert_eq!(h.get_index(v(17_499, 0)).x, 0);
    assert_eq!(h.get_index(v(17_500, 0)).x, 1);
    let from_a: Vec<usize> = h.get_neighbors(v(17_499, 0)).into_iter().flatten().collect();
    assert!(from_a.contains(&1) && from_a.contains(&2));
}

#[test]
fn default_cell_size() {
    let h = SparseSpatialHash::default();
    assert_eq!(h.cell_size, 100_000);
}
