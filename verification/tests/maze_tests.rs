use mazegen::binary_tree_maze;
use mazegen::flip;
use mazegen::hunt_and_kill;
use mazegen::recursive_backtracker;
use mazegen::sample;
use mazegen::sample_index;
use mazegen::sidewinder_maze;
use mazegen::Grid;
use rand::rngs::StdRng;
use rand::SeedableRng;

fn link_total(grid: &Grid) -> usize {
    let mut twice = 0;
    for c in 0..grid.num_cells() {
        twice += grid.links(c).len();
    }
    assert_eq!(twice % 2, 0);
    twice / 2
}

fn assert_perfect(grid: &Grid) {
    let n = grid.num_cells();
    assert_eq!(link_total(grid), n - 1);
    let dists = grid.distances(0);
    assert!(dists.iter().all(|d| d.is_some()));
    for a in 0..n {
        for b in grid.links(a) {
            assert!(grid.neighbors(a).contains(&b));
            assert!(grid.is_linked(b, a));
        }
    }
}

#[test]
fn test_binary_tree_is_spanning_tree() {
    for seed in 0..20 {
        let mut rng = StdRng::seed_from_u64(seed);
        let mut grid = Grid::new(5, 7);
        binary_tree_maze(&mut grid, &mut rng);
        assert_perfect(&grid);
    }
}

#[test]
fn test_binary_tree_north_row_and_east_column() {
    let mut rng = StdRng::seed_from_u64(3);
    let mut grid = Grid::new(4, 5);
    binary_tree_maze(&mut grid, &mut rng);

    for j in 0..4 {
        assert!(grid.is_linked_east(grid.cell(0, j)));
    }
    for i in 1..4 {
        assert!(grid.is_linked_north(grid.cell(i, 4)));
    }
    for c in 0..grid.num_cells() {
        if c != grid.cell(0, 4) {
            assert!(grid.is_linked_north(c) != grid.is_linked_east(c));
        }
    }
}

#[test]
fn test_binary_tree_two_by_two() {
    for seed in 0..40 {
        let mut rng = StdRng::seed_from_u64(seed);
        let mut grid = Grid::new(2, 2);
        binary_tree_maze(&mut grid, &mut rng);

        assert!(grid.is_linked(0, 1));
        assert!(grid.is_linked(1, 3));
        assert!(grid.is_linked(0, 2) != grid.is_linked(2, 3));
        assert!(!grid.is_linked(0, 3));
        assert!(!grid.is_linked(1, 2));
        assert_eq!(link_total(&grid), 3);
        assert!(grid.distances(0).iter().all(|d| d.is_some()));
    }
}

#[test]
fn test_binary_tree_both_choices_occur() {
    let mut north = false;
    let mut east = false;
    for seed in 0..60 {
        let mut rng = StdRng::seed_from_u64(seed);
        let mut grid = Grid::new(2, 2);
        binary_tree_maze(&mut grid, &mut rng);
        if grid.is_linked(2, 0) {
            north = true;
        }
        if grid.is_linked(2, 3) {
            east = true;
        }
    }
    assert!(north && east);
}

#[test]
fn test_binary_tree_clears_first() {
    let mut rng = StdRng::seed_from_u64(9);
    let mut grid = Grid::new(3, 3);
    grid.link(0, 8);
    grid.link(2, 6);
    binary_tree_maze(&mut grid, &mut rng);
    assert!(!grid.is_linked(0, 8));
    assert!(!grid.is_linked(2, 6));
    assert_perfect(&grid);
}

#[test]
fn test_sidewinder_is_spanning_tree() {
    for seed in 0..20 {
        let mut rng = StdRng::seed_from_u64(seed);
        let mut grid = Grid::new(6, 5);
        sidewinder_maze(&mut grid, &mut rng);
        assert_perfect(&grid);
    }
}

#[test]
fn test_sidewinder_top_row_unbroken() {
    let mut rng = StdRng::seed_from_u64(17);
    let mut grid = Grid::new(4, 6);
    sidewinder_maze(&mut grid, &mut rng);
    for j in 0..5 {
        assert!(grid.is_linked_east(grid.cell(0, j)));
    }
    // No link leads south out of the last row, and each lower row is linked upward.
    for i in 1..4 {
        let ups = (0..6).filter(|j| grid.is_linked_north(grid.cell(i, *j))).count();
        assert!(ups >= 1);
    }
}

#[test]
fn test_hunt_and_kill_is_spanning_tree() {
    for seed in 0..20 {
        let mut rng = StdRng::seed_from_u64(seed);
        let mut grid = Grid::new(6, 6);
        hunt_and_kill(&mut grid, &mut rng);
        assert_perfect(&grid);
    }
}

#[test]
fn test_recursive_backtracker_is_spanning_tree() {
    for seed in 0..20 {
        let mut rng = StdRng::seed_from_u64(seed);
        let mut grid = Grid::new(5, 8);
        recursive_backtracker(&mut grid, &mut rng);
        assert_perfect(&grid);
    }
}

#[test]
fn test_generators_on_two_by_two() {
    for seed in 0..10 {
        let mut rng = StdRng::seed_from_u64(seed);
        let mut grid = Grid::new(2, 2);
        sidewinder_maze(&mut grid, &mut rng);
        assert_perfect(&grid);
        hunt_and_kill(&mut grid, &mut rng);
        assert_perfect(&grid);
        recursive_backtracker(&mut grid, &mut rng);
        assert_perfect(&grid);
    }
}

#[test]
fn test_generators_on_thin_grids() {
    let mut rng = StdRng::seed_from_u64(1);
    for (rows, cols) in vec![(1, 1), (1, 6), (6, 1)] {
        let mut grid = Grid::new(rows, cols);
        binary_tree_maze(&mut grid, &mut rng);
        assert_perfect(&grid);
        sidewinder_maze(&mut grid, &mut rng);
        assert_perfect(&grid);
        hunt_and_kill(&mut grid, &mut rng);
        assert_perfect(&grid);
        recursive_backtracker(&mut grid, &mut rng);
        assert_perfect(&grid);
    }
}

#[test]
fn test_generators_on_empty_grid() {
    let mut rng = StdRng::seed_from_u64(1);
    let mut grid = Grid::new(0, 4);
    binary_tree_maze(&mut grid, &mut rng);
    sidewinder_maze(&mut grid, &mut rng);
    hunt_and_kill(&mut grid, &mut rng);
    recursive_backtracker(&mut grid, &mut rng);
    assert_eq!(grid.num_cells(), 0);
}

#[test]
fn test_same_seed_same_maze() {
    let mut first = Grid::new(6, 6);
    let mut second = Grid::new(6, 6);
    let mut rng = StdRng::seed_from_u64(77);
    hunt_and_kill(&mut first, &mut rng);
    let mut rng = StdRng::seed_from_u64(77);
    hunt_and_kill(&mut second, &mut rng);
    for c in 0..36 {
        assert_eq!(first.links(c), second.links(c));
    }
}

#[test]
fn test_longest_path_in_maze_is_a_path() {
    let mut rng = StdRng::seed_from_u64(8);
    let mut grid = Grid::new(5, 5);
    recursive_backtracker(&mut grid, &mut rng);
    let path = grid.longest_path();
    assert!(path.len() >= 2);
    for k in 0..path.len() - 1 {
        assert!(grid.is_linked(path[k], path[k + 1]));
    }
    let dists = grid.distances(path[0]);
    assert_eq!(dists[path[path.len() - 1]], Some(path.len() - 1));
    assert_eq!(dists.iter().map(|d| d.unwrap()).max(), Some(path.len() - 1));
}

#[test]
fn test_sample_picks_members() {
    let mut rng = StdRng::seed_from_u64(4);
    let cells = vec![3, 9, 27];
    let mut seen = vec![false; 3];
    for _ in 0..200 {
        let c = sample(&mut rng, &cells);
        let at = cells.iter().position(|x| *x == c).unwrap();
        seen[at] = true;
    }
    assert_eq!(seen, vec![true, true, true]);
    assert_eq!(sample(&mut rng, &[42]), 42);
}

#[test]
fn test_sample_index_in_range() {
    let mut rng = StdRng::seed_from_u64(6);
    let mut seen = vec![false; 5];
    for _ in 0..300 {
        let k = sample_index(&mut rng, 5);
        assert!(k < 5);
        seen[k] = true;
    }
    assert!(seen.iter().all(|s| *s));
    assert_eq!(sample_index(&mut rng, 1), 0);
}

#[test]
fn test_flip_gives_both_sides() {
    let mut rng = StdRng::seed_from_u64(12);
    let mut heads = 0;
    for _ in 0..1000 {
        if flip(&mut rng) {
            heads += 1;
        }
    }
    assert!(heads > 350 && heads < 650);
}

#[test]
fn test_longest_path_is_longest_in_a_tree() {
    for seed in 0..6 {
        let mut rng = StdRng::seed_from_u64(seed);
        let mut grid = Grid::new(4, 5);
        hunt_and_kill(&mut grid, &mut rng);

        let mut longest = 0;
        for a in 0..grid.num_cells() {
            for d in grid.distances(a) {
                longest = longest.max(d.unwrap());
            }
        }
        assert_eq!(grid.longest_path().len(), longest + 1);
    }
}
