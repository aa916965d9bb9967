use worldmap::land::{is_on_land, LandGrid, FINE_WIDTH};

fn cell(lon_idx: usize, lat_idx: usize) -> usize {
    lat_idx * FINE_WIDTH + lon_idx
}

#[test]
fn empty_grid_is_all_water() {
    let grid = LandGrid::new();
    assert!(!grid.is_land(0, 0));
    assert!(!grid.is_land(1800, 900));
    assert!(!grid.is_land(3599, 1799));
}

#[test]
fn listed_cells_are_land_and_neighbours_water() {
    let grid = LandGrid::from_land_cells(&vec![cell(5, 7), cell(123, 456)]);
    assert!(grid.is_land(5, 7));
    assert!(grid.is_land(123, 456));
    assert!(!grid.is_land(6, 7));
    assert!(!grid.is_land(5, 8));
    assert!(!grid.is_land(120, 456));
}

#[test]
fn fully_covered_coarse_cell_answers_land() {
    let mut cells = Vec::new();
    for lat in 20..30 {
        for lon in 40..50 {
            cells.push(cell(lon, lat));
        }
    }
    let grid = LandGrid::from_land_cells(&cells);
    for lat in 20..30 {
        for lon in 40..50 {
            assert!(grid.is_land(lon, lat));
        }
    }
    assert!(!grid.is_land(50, 25));
    assert!(!grid.is_land(45, 19));
}

#[test]
fn query_indices_are_clamped_into_the_grid() {
    let grid = LandGrid::from_land_cells(&vec![cell(3599, 1799)]);
    assert!(grid.is_land(5000, 9000));
    assert!(grid.is_land(3599, 1799));
    assert!(!grid.is_land(3598, 1799));
}

#[test]
fn indices_past_the_grid_are_ignored_when_building() {
    let grid = LandGrid::from_land_cells(&vec![6_480_000, usize::MAX]);
    assert!(!grid.is_land(0, 0));
}

#[test]
fn missing_land_data_means_land_everywhere() {
    assert!(is_on_land(&None, 10, 10));
    let grid = LandGrid::from_land_cells(&vec![cell(1, 1)]);
    let some = Some(grid);
    assert!(is_on_land(&some, 1, 1));
    assert!(!is_on_land(&some, 2, 1));
}
