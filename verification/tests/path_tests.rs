use mazegen::Grid;

/// A 3x3 grid linked as one snake: 0-1-2, 2-5, 5-4-3, 3-6, 6-7-8.
fn snake() -> Grid {
    let mut grid = Grid::new(3, 3);
    grid.link(0, 1);
    grid.link(1, 2);
    grid.link(2, 5);
    grid.link(5, 4);
    grid.link(4, 3);
    grid.link(3, 6);
    grid.link(6, 7);
    grid.link(7, 8);
    grid
}

#[test]
fn test_distances_snake() {
    let grid = snake();
    let dists = grid.distances(0);
    assert_eq!(
        dists,
        vec![
            Some(0),
            Some(1),
            Some(2),
            Some(5),
            Some(4),
            Some(3),
            Some(6),
            Some(7),
            Some(8)
        ]
    );
}

#[test]
fn test_distances_unreached_cells() {
    let mut grid = Grid::new(2, 3);
    grid.link(0, 1);
    grid.link(1, 4);

    let dists = grid.distances(4);
    assert_eq!(dists, vec![Some(2), Some(1), None, None, Some(0), None]);

    let alone = grid.distances(5);
    assert_eq!(alone, vec![None, None, None, None, None, Some(0)]);
}

#[test]
fn test_distances_follow_links_not_neighbors() {
    // Cells 0 and 1 are neighbors, but the only way between them is around.
    let mut grid = Grid::new(2, 2);
    grid.link(0, 2);
    grid.link(2, 3);
    grid.link(3, 1);
    assert_eq!(grid.distances(0), vec![Some(0), Some(3), Some(1), Some(2)]);
}

#[test]
fn test_distances_with_cycle() {
    let mut grid = Grid::new(2, 2);
    grid.link(0, 1);
    grid.link(1, 3);
    grid.link(3, 2);
    grid.link(2, 0);
    assert_eq!(grid.distances(0), vec![Some(0), Some(1), Some(1), Some(2)]);
}

#[test]
fn test_distances_one_plus_least_neighbor() {
    let mut grid = Grid::new(3, 3);
    grid.link(0, 1);
    grid.link(1, 2);
    grid.link(0, 3);
    grid.link(3, 4);
    grid.link(4, 5);
    grid.link(2, 5);
    grid.link(4, 7);

    let start = 0;
    let dists = grid.distances(start);
    assert_eq!(dists[start], Some(0));
    for c in 0..grid.num_cells() {
        if c == start {
            continue;
        }
        if let Some(d) = dists[c] {
            let least = grid
                .links(c)
                .iter()
                .filter_map(|n| dists[*n])
                .min()
                .unwrap();
            assert_eq!(d, 1 + least);
        }
    }
    assert_eq!(dists[6], None);
    assert_eq!(dists[8], None);
}

#[test]
fn test_shortest_path_snake() {
    let grid = snake();
    assert_eq!(grid.shortest_path(0, 8), vec![0, 1, 2, 5, 4, 3, 6, 7, 8]);
    assert_eq!(grid.shortest_path(4, 1), vec![4, 5, 2, 1]);
    assert_eq!(grid.shortest_path(3, 3), vec![3]);
}

#[test]
fn test_shortest_path_none() {
    let mut grid = Grid::new(2, 2);
    grid.link(0, 1);
    assert_eq!(grid.shortest_path(0, 3), Vec::<usize>::new());
    assert_eq!(grid.shortest_path(2, 0), Vec::<usize>::new());
}

#[test]
fn test_shortest_path_length_is_distance() {
    let mut grid = Grid::new(3, 3);
    grid.link(0, 1);
    grid.link(1, 2);
    grid.link(0, 3);
    grid.link(3, 4);
    grid.link(4, 5);
    grid.link(2, 5);
    grid.link(4, 7);

    for start in 0..9 {
        let dists = grid.distances(start);
        for goal in 0..9 {
            let path = grid.shortest_path(start, goal);
            match dists[goal] {
                Some(d) => {
                    assert_eq!(path.len(), d + 1);
                    assert_eq!(path[0], start);
                    assert_eq!(path[path.len() - 1], goal);
                    for k in 0..path.len() - 1 {
                        assert!(grid.is_linked(path[k], path[k + 1]));
                    }
                }
                None => assert!(path.is_empty()),
            }
        }
    }
}

#[test]
fn test_shortest_path_takes_first_link() {
    // Two shortest ways from 0 to 3; the path goes back from the goal by the
    // link that was made first.
    let mut grid = Grid::new(2, 2);
    grid.link(0, 1);
    grid.link(0, 2);
    grid.link(3, 2);
    grid.link(3, 1);
    assert_eq!(grid.shortest_path(0, 3), vec![0, 2, 3]);
}

#[test]
fn test_farthest() {
    let grid = snake();
    assert_eq!(grid.farthest(0), 8);
    assert_eq!(grid.farthest(8), 0);
    assert_eq!(grid.farthest(4), 0);
}

#[test]
fn test_farthest_tie_takes_lowest_id() {
    let mut grid = Grid::new(1, 5);
    grid.link(0, 1);
    grid.link(1, 2);
    grid.link(2, 3);
    grid.link(3, 4);
    // Cells 0 and 4 are both two links from cell 2.
    assert_eq!(grid.farthest(2), 0);
}

#[test]
fn test_farthest_of_isolated_cell() {
    let grid = Grid::new(2, 2);
    assert_eq!(grid.farthest(3), 3);
    assert_eq!(grid.farthest(0), 0);
}

#[test]
fn test_dead_ends() {
    let grid = snake();
    assert_eq!(grid.dead_ends(), vec![0, 8]);

    let mut grid = Grid::new(3, 3);
    grid.link(4, 1);
    grid.link(4, 3);
    grid.link(4, 5);
    grid.link(4, 7);
    assert_eq!(grid.dead_ends(), vec![1, 3, 5, 7]);

    let grid = Grid::new(2, 2);
    assert_eq!(grid.dead_ends(), Vec::<usize>::new());
}

#[test]
fn test_dead_ends_are_cells_with_one_link() {
    let mut grid = Grid::new(3, 4);
    grid.link(0, 1);
    grid.link(1, 5);
    grid.link(5, 6);
    grid.link(5, 9);
    grid.link(2, 3);

    let dead = grid.dead_ends();
    for c in 0..grid.num_cells() {
        assert_eq!(dead.contains(&c), grid.links(c).len() == 1);
    }
}

#[test]
fn test_longest_path() {
    let grid = snake();
    assert_eq!(grid.longest_path(), vec![0, 1, 2, 5, 4, 3, 6, 7, 8]);

    // A tree whose longest path does not pass through cell 0's far end only.
    let mut grid = Grid::new(3, 3);
    grid.link(0, 1);
    grid.link(1, 4);
    grid.link(4, 3);
    grid.link(4, 5);
    grid.link(4, 7);
    grid.link(7, 6);
    grid.link(7, 8);
    // farthest(0) is 6 (distance 4, lowest id); farthest(6) is 0.
    assert_eq!(grid.longest_path(), vec![0, 1, 4, 7, 6]);
}

#[test]
fn test_longest_path_without_links() {
    let grid = Grid::new(2, 2);
    assert_eq!(grid.longest_path(), vec![0]);
}
