use mazegen::Grid;
use mazegen::GridDirection;

#[test]
fn test_grid_new() {
    let grid = Grid::new(5, 6);

    assert_eq!(grid.num_rows(), 5);
    assert_eq!(grid.num_cols(), 6);
    assert_eq!(grid.num_cells(), 30);
}

#[test]
fn test_grid_cell() {
    let grid = Grid::new(5, 6);

    assert_eq!(grid.cell(0, 0), 0);
    assert_eq!(grid.cell(0, 3), 3);
    assert_eq!(grid.cell(1, 0), 6);
    assert_eq!(grid.cell(1, 3), 9);
    assert_eq!(grid.cell(2, 0), 12);
    assert_eq!(grid.cell(4, 5), grid.num_cells() - 1);
}

#[test]
fn test_grid_i_j() {
    let grid = Grid::new(5, 6);

    assert_eq!(grid.i(0), 0);
    assert_eq!(grid.j(0), 0);

    assert_eq!(grid.i(3), 0);
    assert_eq!(grid.j(3), 3);

    assert_eq!(grid.i(6), 1);
    assert_eq!(grid.j(6), 0);

    assert_eq!(grid.i(9), 1);
    assert_eq!(grid.j(9), 3);
}

#[test]
fn test_grid_cell_i_j() {
    let grid = Grid::new(5, 6);

    for i in 0..grid.num_rows() {
        for j in 0..grid.num_cols() {
            let cell = grid.cell(i, j);
            assert!(grid.contains(cell));
            assert_eq!(grid.i(cell), i);
            assert_eq!(grid.j(cell), j);
        }
    }
}

#[test]
fn test_grid_neighbors() {
    let grid = Grid::new(5, 6);

    for cell in 0..grid.num_cells() {
        let mut count = 0;
        let neighbors = grid.neighbors(cell);

        if let Some(other) = grid.north_of(cell) {
            count += 1;
            assert!(grid.contains(other));
            assert!(neighbors.contains(&other));
        }

        if let Some(other) = grid.south_of(cell) {
            count += 1;
            assert!(grid.contains(other));
            assert!(neighbors.contains(&other));
        }

        if let Some(other) = grid.east_of(cell) {
            count += 1;
            assert!(grid.contains(other));
            assert!(neighbors.contains(&other));
        }

        if let Some(other) = grid.west_of(cell) {
            count += 1;
            assert!(grid.contains(other));
            assert!(neighbors.contains(&other));
        }

        assert_eq!(neighbors.len(), count);
    }
}

#[test]
fn test_grid_linking() {
    let mut grid = Grid::new(5, 6);

    // Initially, no cells are linked.
    for c1 in 0..grid.num_cells() {
        for c2 in 0..grid.num_cells() {
            assert!(!grid.is_linked(c1, c2));
        }
    }

    // Link each cell to its eastern neighbor (if any)
    for c1 in 0..grid.num_cells() {
        if let Some(c2) = grid.east_of(c1) {
            grid.link(c1, c2);
            assert!(grid.is_linked(c1, c2));
            assert!(grid.is_linked(c2, c1));

            grid.unlink(c1, c2);
            assert!(!grid.is_linked(c1, c2));
            assert!(!grid.is_linked(c2, c1));
        }
    }
}

#[test]
fn test_grid_is_linked_direction() {
    let mut grid = Grid::new(5, 6);

    // Add north, south, east, and west links.
    let cell = grid.cell(3, 3);
    grid.link(cell, grid.north_of(cell).unwrap());
    grid.link(cell, grid.south_of(cell).unwrap());
    grid.link(cell, grid.east_of(cell).unwrap());
    grid.link(cell, grid.west_of(cell).unwrap());

    for c in 0..grid.num_cells() {
        if let Some(other) = grid.north_of(c) {
            assert_eq!(grid.is_linked_north(c), grid.is_linked(c, other));
        }

        if let Some(other) = grid.south_of(c) {
            assert_eq!(grid.is_linked_south(c), grid.is_linked(c, other));
        }

        if let Some(other) = grid.east_of(c) {
            assert_eq!(grid.is_linked_east(c), grid.is_linked(c, other));
        }

        if let Some(other) = grid.west_of(c) {
            assert_eq!(grid.is_linked_west(c), grid.is_linked(c, other));
        }
    }
}

#[test]
fn test_grid_directions() {
    let mut grid = Grid::new(5, 6);

    // Add north, south, east, and west links.
    let cell = grid.cell(3, 3);
    grid.link(cell, grid.north_of(cell).unwrap());
    grid.link(cell, grid.south_of(cell).unwrap());
    grid.link(cell, grid.east_of(cell).unwrap());
    grid.link(cell, grid.west_of(cell).unwrap());

    for c in 0..grid.num_cells() {
        assert_eq!(
            grid.is_linked_north(c),
            grid.is_linked_to(c, GridDirection::North)
        );
        assert_eq!(
            grid.is_linked_south(c),
            grid.is_linked_to(c, GridDirection::South)
        );
        assert_eq!(
            grid.is_linked_east(c),
            grid.is_linked_to(c, GridDirection::East)
        );
        assert_eq!(
            grid.is_linked_west(c),
            grid.is_linked_to(c, GridDirection::West)
        );

        assert_eq!(grid.north_of(c), grid.cell_to(c, GridDirection::North));
        assert_eq!(grid.south_of(c), grid.cell_to(c, GridDirection::South));
        assert_eq!(grid.east_of(c), grid.cell_to(c, GridDirection::East));
        assert_eq!(grid.west_of(c), grid.cell_to(c, GridDirection::West));
    }
}

#[test]
fn test_grid_corner_neighbors() {
    let grid = Grid::new(3, 4);

    assert_eq!(grid.north_of(0), None);
    assert_eq!(grid.west_of(0), None);
    assert_eq!(grid.east_of(0), Some(1));
    assert_eq!(grid.south_of(0), Some(4));
    assert_eq!(grid.neighbors(0), vec![4, 1]);

    assert_eq!(grid.north_of(11), Some(7));
    assert_eq!(grid.west_of(11), Some(10));
    assert_eq!(grid.east_of(11), None);
    assert_eq!(grid.south_of(11), None);

    // An inner cell: north, south, east, west.
    assert_eq!(grid.neighbors(5), vec![1, 9, 6, 4]);
}

#[test]
fn test_grid_ij_roundtrip() {
    let grid = Grid::new(4, 7);

    for i in 0..4 {
        for j in 0..7 {
            assert_eq!(grid.ij(grid.cell(i, j)), (i, j));
        }
    }
    assert_eq!(grid.ij(10), (1, 3));
}

#[test]
fn test_grid_empty() {
    let grid = Grid::new(0, 5);
    assert_eq!(grid.num_cells(), 0);
    assert!(!grid.contains(0));
    assert!(grid.dead_ends().is_empty());

    let grid = Grid::new(3, 0);
    assert_eq!(grid.num_cells(), 0);
}

#[test]
fn test_grid_links_in_order() {
    let mut grid = Grid::new(3, 3);

    grid.link(4, 5);
    grid.link(4, 1);
    grid.link(3, 4);
    grid.link(4, 5);

    assert_eq!(grid.links(4), vec![5, 1, 3]);
    assert_eq!(grid.links(5), vec![4]);
    assert_eq!(grid.links(0), Vec::<usize>::new());

    grid.unlink(1, 4);
    assert_eq!(grid.links(4), vec![5, 3]);
    assert_eq!(grid.links(1), Vec::<usize>::new());

    // Unlinking what is not linked changes nothing.
    grid.unlink(0, 8);
    assert_eq!(grid.links(4), vec![5, 3]);
}

#[test]
fn test_grid_link_symmetric() {
    let mut grid = Grid::new(4, 4);
    grid.link(0, 1);
    grid.link(5, 9);
    // Links need not join neighbors.
    grid.link(0, 15);

    for a in 0..grid.num_cells() {
        for b in 0..grid.num_cells() {
            assert_eq!(grid.is_linked(a, b), grid.is_linked(b, a));
        }
    }
    assert!(grid.is_linked(15, 0));
}

#[test]
fn test_grid_clear() {
    let mut grid = Grid::new(3, 3);
    grid.link(0, 1);
    grid.link(1, 4);
    grid.link(4, 7);
    grid.clear();

    for a in 0..9 {
        for b in 0..9 {
            assert!(!grid.is_linked(a, b));
        }
        assert!(grid.links(a).is_empty());
    }
    assert_eq!(grid.north_of(4), Some(1));
    assert_eq!(grid.num_cells(), 9);
}

#[test]
fn test_grid_equality_ignores_link_order() {
    let mut first = Grid::new(3, 3);
    first.link(4, 1);
    first.link(4, 5);
    first.link(0, 1);

    let mut second = Grid::new(3, 3);
    second.link(1, 0);
    second.link(5, 4);
    second.link(1, 4);

    assert!(first == second);
    assert_eq!(first.clone(), first);

    second.link(7, 8);
    assert!(first != second);
    second.unlink(7, 8);
    assert!(first == second);
}

#[test]
fn test_grid_equality_needs_same_shape() {
    assert!(Grid::new(2, 3) != Grid::new(3, 2));
    assert!(Grid::new(2, 3) == Grid::new(2, 3));
    assert!(Grid::new(0, 3) != Grid::new(0, 4));
}
