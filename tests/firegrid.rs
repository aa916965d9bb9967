use worldmap::firegrid::FireGrid;

#[test]
fn rebuild_keeps_peak_per_cell() {
    let mut grid = FireGrid::new(4, 3);
    grid.rebuild(&vec![(1, 1, 40), (1, 1, 200), (1, 1, 90), (3, 2, 7), (9, 9, 255)]);
    let found = grid.fires_in_region(0, 0, 4, 3);
    assert_eq!(found, vec![(1, 1, 200), (3, 2, 7)]);
}

#[test]
fn rebuild_clears_previous_fires() {
    let mut grid = FireGrid::new(4, 3);
    grid.rebuild(&vec![(0, 0, 100)]);
    grid.rebuild(&vec![(2, 1, 60)]);
    assert_eq!(grid.fires_in_region(0, 0, 4, 3), vec![(2, 1, 60)]);
}

#[test]
fn region_bounds_are_half_open_and_clamped() {
    let mut grid = FireGrid::new(4, 3);
    grid.rebuild(&vec![(0, 0, 5), (3, 2, 6), (2, 2, 9)]);
    assert_eq!(grid.fires_in_region(1, 1, 100, 100), vec![(2, 2, 9), (3, 2, 6)]);
    assert_eq!(grid.fires_in_region(0, 0, 3, 2), vec![(0, 0, 5)]);
    assert!(grid.fires_in_region(3, 3, 1, 1).is_empty());
}

#[test]
fn burning_neighbours_counts_hot_cells_with_clamping() {
    let mut grid = FireGrid::new(4, 4);
    grid.rebuild(&vec![(0, 0, 51), (1, 0, 50), (1, 1, 200), (3, 3, 100)]);
    assert_eq!(grid.burning_neighbours(1, 1), 2);
    assert_eq!(grid.burning_neighbours(0, 0), 5);
    assert_eq!(grid.burning_neighbours(3, 3), 4);
    assert_eq!(grid.burning_neighbours(-10, -10), 9);
    assert_eq!(grid.grid_width(), 4);
    assert_eq!(grid.grid_height(), 4);
}
