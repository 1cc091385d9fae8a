use mazegen::recursive_backtracker;
use mazegen::Canvas;
use mazegen::Grid;
use mazegen::ImageRenderer;
use rand::rngs::StdRng;
use rand::SeedableRng;

const BLACK: (u8, u8, u8) = (0, 0, 0);
const WHITE: (u8, u8, u8) = (255, 255, 255);

/// Paints the maze in layers: white, the top and left lines, the corners, then
/// the eastern and southern wall of each cell that is not linked that way.
fn painted(grid: &Grid) -> Vec<Vec<(u8, u8, u8)>> {
    let size = 10;
    let width = 1 + size * grid.num_cols();
    let height = 1 + size * grid.num_rows();
    let mut rows = vec![vec![WHITE; width]; height];
    for x in 0..width {
        rows[0][x] = BLACK;
    }
    for y in 0..height {
        rows[y][0] = BLACK;
    }
    for y in (size..height).step_by(size) {
        for x in (size..width).step_by(size) {
            rows[y][x] = BLACK;
        }
    }
    for i in 0..grid.num_rows() {
        let y = size * i;
        for j in 0..grid.num_cols() {
            let cell = grid.cell(i, j);
            let x = size * j;
            if !grid.is_linked_east(cell) {
                for n in y..(y + size) {
                    rows[n][x + size] = BLACK;
                }
            }
            if !grid.is_linked_south(cell) {
                for n in x..(x + size) {
                    rows[y + size][n] = BLACK;
                }
            }
        }
    }
    rows
}

fn assert_same(canvas: &Canvas, rows: &Vec<Vec<(u8, u8, u8)>>) {
    assert_eq!(canvas.height() as usize, rows.len());
    for y in 0..rows.len() {
        assert_eq!(canvas.width() as usize, rows[y].len());
        for x in 0..rows[y].len() {
            assert_eq!(canvas.pixel(x as u32, y as u32), Some(rows[y][x]));
        }
    }
}

#[test]
fn test_image_size() {
    let grid = Grid::new(3, 5);
    let canvas = ImageRenderer::new(&grid).render();
    assert_eq!(canvas.width(), 51);
    assert_eq!(canvas.height(), 31);
    assert_eq!(canvas.pixel(51, 0), None);
    assert_eq!(canvas.pixel(0, 31), None);
    assert_eq!(canvas.pixel(50, 30), Some(BLACK));
}

#[test]
fn test_image_of_single_cell() {
    let grid = Grid::new(1, 1);
    let canvas = grid.to_image();
    for y in 0..11 {
        for x in 0..11 {
            let wall = x == 0 || y == 0 || x == 10 || y == 10;
            let expected = if wall { BLACK } else { WHITE };
            assert_eq!(canvas.pixel(x, y), Some(expected));
        }
    }
}

#[test]
fn test_image_open_walls() {
    let mut grid = Grid::new(2, 2);
    grid.link(0, 1);
    grid.link(1, 3);
    let canvas = ImageRenderer::new(&grid).render();

    // The wall between cells 0 and 1 is open, its corners are drawn.
    assert_eq!(canvas.pixel(10, 5), Some(WHITE));
    assert_eq!(canvas.pixel(10, 0), Some(BLACK));
    assert_eq!(canvas.pixel(10, 10), Some(BLACK));
    // The wall between cells 1 and 3 is open.
    assert_eq!(canvas.pixel(15, 10), Some(WHITE));
    // The walls between 0 and 2 and between 2 and 3 stand.
    assert_eq!(canvas.pixel(5, 10), Some(BLACK));
    assert_eq!(canvas.pixel(10, 15), Some(BLACK));
    // The outer walls stand.
    assert_eq!(canvas.pixel(20, 5), Some(BLACK));
    assert_eq!(canvas.pixel(5, 20), Some(BLACK));
    // The floor is white.
    assert_eq!(canvas.pixel(5, 5), Some(WHITE));
    assert_eq!(canvas.pixel(19, 19), Some(WHITE));
}

#[test]
fn test_image_matches_painting_in_layers() {
    for seed in 0..5 {
        let mut rng = StdRng::seed_from_u64(seed);
        let mut grid = Grid::new(4, 6);
        recursive_backtracker(&mut grid, &mut rng);
        assert_same(&ImageRenderer::new(&grid).render(), &painted(&grid));
    }
    let grid = Grid::new(2, 3);
    assert_same(&grid.to_image(), &painted(&grid));
}

#[test]
fn test_image_settings_do_not_change_the_image() {
    let mut grid = Grid::new(2, 2);
    grid.link(0, 2);
    let canvas = ImageRenderer::new(&grid)
        .cell_width(4)
        .cell_height(6)
        .cell_size(30)
        .border_width(5)
        .render();
    assert_same(&canvas, &painted(&grid));
}

#[test]
fn test_image_of_empty_grid() {
    let grid = Grid::new(0, 0);
    let canvas = ImageRenderer::new(&grid).render();
    assert_eq!(canvas.width(), 1);
    assert_eq!(canvas.height(), 1);
    assert_eq!(canvas.pixel(0, 0), Some(BLACK));
}
