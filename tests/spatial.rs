use worldmap::spatial::{CellBox, FeatureGrid, SpatialGrid};

fn cb(min_x: i32, min_y: i32, max_x: i32, max_y: i32) -> CellBox {
    CellBox { min_x, min_y, max_x, max_y }
}

#[test]
fn feature_grid_lists_feature_in_every_overlapped_cell() {
    let grid = FeatureGrid::build(&vec![cb(0, 0, 1, 1), cb(-36, -18, -36, -18), cb(10, 10, 12, 12)], 72, 36);
    let mut found = Vec::new();
    grid.query_into(cb(0, 0, 1, 1), &mut found);
    assert_eq!(found, vec![0, 0, 0, 0]);
    let mut one = Vec::new();
    grid.query_into(cb(1, 1, 2, 2), &mut one);
    assert_eq!(one, vec![0]);
}

#[test]
fn feature_grid_query_keeps_earlier_results_and_skips_outside() {
    let grid = FeatureGrid::build(&vec![cb(0, 0, 1, 1), cb(-36, -18, -36, -18), cb(10, 10, 12, 12)], 72, 36);
    let mut found = vec![99];
    grid.query_into(cb(-40, -20, -30, -15), &mut found);
    assert_eq!(found, vec![99, 1]);
    let mut none = Vec::new();
    grid.query_into(cb(40, 20, 50, 30), &mut none);
    assert!(none.is_empty());
}

#[test]
fn feature_grid_overlapping_boxes() {
    let grid = FeatureGrid::build(&vec![cb(0, 0, 3, 0), cb(2, 0, 5, 0)], 72, 36);
    let mut found = Vec::new();
    grid.query_into(cb(2, 0, 2, 0), &mut found);
    assert_eq!(found, vec![0, 1]);
    let mut empty_grid_found = Vec::new();
    FeatureGrid::new(72, 36).query_into(cb(-36, -18, 35, 17), &mut empty_grid_found);
    assert!(empty_grid_found.is_empty());
}

#[test]
fn point_grid_queries_by_cells() {
    let mut grid: SpatialGrid<&str> = SpatialGrid::new();
    grid.insert(0, 0, "a");
    grid.insert(1, 0, "b");
    grid.insert(0, 0, "c");
    grid.insert(-5, 3, "d");
    assert_eq!(grid.len(), 4);
    let mut near = grid.query_radius(0, 0, 1);
    near.sort();
    assert_eq!(near, vec![0, 1, 2]);
    let mut boxed = grid.query_bbox(CellBox { min_x: -5, min_y: 0, max_x: 0, max_y: 3 });
    boxed.sort();
    assert_eq!(boxed, vec![0, 2, 3]);
    assert!(grid.query_cells(2, 2, 4, 4).is_empty());
    assert_eq!(grid.query_cells(-5, 3, -5, 3), vec![3]);
}

#[test]
fn point_grid_get_and_get_mut() {
    let mut grid: SpatialGrid<u64> = SpatialGrid::new();
    grid.insert(2, 2, 10);
    grid.insert(i32::MIN, i32::MAX, 20);
    assert_eq!(grid.get(0), Some(&10));
    assert_eq!(grid.get(2), None);
    if let Some(v) = grid.get_mut(1) {
        *v = 25;
    }
    assert_eq!(grid.get(1), Some(&25));
    assert!(grid.get_mut(7).is_none());
    assert_eq!(grid.query_cells(i32::MIN as i64, i32::MAX as i64, i32::MIN as i64, i32::MAX as i64), vec![1]);
}
