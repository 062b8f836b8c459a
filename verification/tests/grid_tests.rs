use simcore::grid::BinGrid;

fn occupancy_total(grid: &BinGrid) -> usize {
    let g = grid.side_len();
    let mut total = 0;
    for r in 0..g {
        for c in 0..g {
            total += grid.cell_ref(r, c).len();
        }
    }
    total
}

#[test]
fn test_build_places_each_particle_in_its_cell() {
    // particles 0..4 in cells (0,0), (0,1), (1,0), (1,1), plus one more in (0,0)
    let coords = vec![(0, 0), (0, 1), (1, 0), (1, 1), (0, 0)];
    let grid = BinGrid::build(3, &coords);
    assert_eq!(grid.side_len(), 3);
    assert_eq!(grid.cell_ref(0, 0), &vec![0, 4]);
    assert_eq!(grid.cell_ref(0, 1), &vec![1]);
    assert_eq!(grid.cell_ref(1, 0), &vec![2]);
    assert_eq!(grid.cell_ref(1, 1), &vec![3]);
    assert_eq!(grid.cell_ref(2, 2), &Vec::<usize>::new());
}

#[test]
fn test_build_occupancy_total_is_particle_count() {
    // occupancies over all cells sum to the number of particles
    let mut coords = Vec::new();
    for i in 0..137_usize {
        coords.push(((i * 7) % 15, (i * 11) % 15));
    }
    let grid = BinGrid::build(15, &coords);
    assert_eq!(occupancy_total(&grid), 137);
}

#[test]
fn test_build_clamps_out_of_range_coords() {
    // raw coordinates are reduced modulo the side defensively
    let coords = vec![(4, 0), (0, 5), (9, 9)];
    let grid = BinGrid::build(4, &coords);
    assert_eq!(grid.cell_ref(0, 0), &vec![0]);
    assert_eq!(grid.cell_ref(0, 1), &vec![1]);
    assert_eq!(grid.cell_ref(1, 1), &vec![2]);
    assert_eq!(occupancy_total(&grid), 3);
}

#[test]
fn test_build_empty_configuration() {
    let coords: Vec<(usize, usize)> = Vec::new();
    let grid = BinGrid::build(5, &coords);
    assert_eq!(occupancy_total(&grid), 0);
}
