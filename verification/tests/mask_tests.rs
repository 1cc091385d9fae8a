use mazegen::Mask;
use rand::rngs::StdRng;
use rand::SeedableRng;

#[test]
fn test_mask_new() {
    let mask = Mask::new(5, 6);

    assert_eq!(mask.num_rows(), 5);
    assert_eq!(mask.num_cols(), 6);
    assert_eq!(mask.num_cells(), 30);
}

#[test]
fn test_mask_cell() {
    let mask = Mask::new(5, 6);

    assert_eq!(mask.cell((0, 0)), 0);
    assert_eq!(mask.cell((0, 3)), 3);
    assert_eq!(mask.cell((1, 0)), 6);
    assert_eq!(mask.cell((1, 3)), 9);
    assert_eq!(mask.cell((2, 0)), 12);
    assert_eq!(mask.cell((4, 5)), mask.num_cells() - 1);
}

#[test]
fn test_mask_set_is_alive() {
    let mut mask = Mask::new(5, 6);

    for i in 0..mask.num_rows() {
        for j in 0..mask.num_cols() {
            let cell = (i, j);
            assert!(mask.is_alive(cell));
            mask.set(cell, false);
            assert!(!mask.is_alive(cell));
        }
    }
}

#[test]
fn test_mask_live_count() {
    let mut mask = Mask::new(5, 6);
    assert_eq!(mask.live_count(), 30);

    mask.set((0, 0), false);
    assert_eq!(mask.live_count(), 29);
}

#[test]
fn test_mask_index_cell() {
    let mut mask = Mask::new(5, 6);

    for i in 0..mask.num_rows() {
        for j in 0..mask.num_cols() {
            let cell = (i, j);
            assert!(mask[cell]);
            mask[cell] = false;
            assert!(!mask[cell]);
        }
    }
}

#[test]
fn test_live_cells() {
    let mut mask = Mask::new(2, 2);

    assert_eq!(mask.live_cells(), vec![(0, 0), (0, 1), (1, 0), (1, 1)]);

    mask[(1, 0)] = false;
    assert_eq!(mask.live_cells(), vec![(0, 0), (0, 1), (1, 1)]);
}

#[test]
fn test_mask_kill_center() {
    let mut mask = Mask::new(3, 3);
    assert_eq!(mask.live_count(), 9);

    mask.kill(4);

    assert_eq!(mask.live_count(), 8);
    assert!(!mask.is_alive(4));
    assert!(!mask.is_alive((1, 1)));
    let live = mask.live_cells();
    assert_eq!(live.len(), 8);
    assert!(!live.contains(&mask.ij(4)));
    let ids: Vec<usize> = live.iter().map(|ij| mask.cell(*ij)).collect();
    assert_eq!(ids, vec![0, 1, 2, 3, 5, 6, 7, 8]);
}

#[test]
fn test_mask_cells_by_id_and_by_pair() {
    let mut mask = Mask::new(2, 3);
    assert!(mask.contains(5));
    assert!(!mask.contains(6));

    mask.set(5, false);
    assert!(!mask.is_alive((1, 2)));
    mask.set((1, 2), true);
    assert!(mask.is_alive(5));

    mask.kill((0, 1));
    assert!(!mask.is_alive(1));
    assert_eq!(mask.live_count(), 5);
    assert_eq!(mask.ij(1), (0, 1));
}

#[test]
fn test_mask_contains() {
    let mask = Mask::new(2, 3);
    assert!(mask.contains((0, 0)));
    assert!(mask.contains((1, 2)));
    assert!(!mask.contains((2, 0)));
    assert!(!mask.contains((0, 3)));
}

#[test]
fn test_mask_set_back_alive() {
    let mut mask = Mask::new(2, 2);
    mask.kill((0, 1));
    assert!(!mask.is_alive((0, 1)));
    mask.set((0, 1), true);
    assert!(mask.is_alive((0, 1)));
    assert_eq!(mask.live_count(), 4);
}

#[test]
fn test_mask_random_cell_is_alive() {
    let mut rng = StdRng::seed_from_u64(11);
    let mut mask = Mask::new(3, 4);
    mask.kill((0, 0));
    mask.kill((1, 2));
    mask.kill((2, 3));

    for _ in 0..200 {
        let cell = mask.random_cell(&mut rng).unwrap();
        assert!(mask.contains(cell));
        assert!(mask.is_alive(cell));
    }
}

#[test]
fn test_mask_random_cell_single_and_none() {
    let mut rng = StdRng::seed_from_u64(5);
    let mut mask = Mask::new(2, 2);
    mask.kill((0, 0));
    mask.kill((0, 1));
    mask.kill((1, 1));
    assert_eq!(mask.random_cell(&mut rng), Some((1, 0)));

    mask.kill((1, 0));
    assert_eq!(mask.live_count(), 0);
    assert_eq!(mask.random_cell(&mut rng), None);
    assert!(mask.live_cells().is_empty());
}

#[test]
fn test_mask_random_cell_reaches_every_live_cell() {
    let mut rng = StdRng::seed_from_u64(2024);
    let mask = Mask::new(2, 3);
    let mut seen = vec![false; 6];
    for _ in 0..500 {
        let cell = mask.random_cell(&mut rng).unwrap();
        seen[mask.cell(cell)] = true;
    }
    assert!(seen.iter().all(|s| *s));
}
