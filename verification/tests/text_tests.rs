use mazegen::Grid;
use mazegen::TextGridRenderer;

#[test]
fn test_render_without_links() {
    let grid = Grid::new(2, 2);
    let text = TextGridRenderer::new().render(&grid);
    assert_eq!(
        text,
        "+---+---+\n|   |   |\n+---+---+\n|   |   |\n+---+---+\n"
    );
}

#[test]
fn test_render_with_links() {
    let mut grid = Grid::new(2, 2);
    grid.link(0, 1);
    grid.link(0, 2);
    let text = TextGridRenderer::new().render(&grid);
    assert_eq!(
        text,
        "+---+---+\n|       |\n+   +---+\n|   |   |\n+---+---+\n"
    );
}

#[test]
fn test_render_one_row() {
    let mut grid = Grid::new(1, 3);
    grid.link(1, 2);
    let mut renderer = TextGridRenderer::new();
    renderer.cell_width(1);
    assert_eq!(renderer.render(&grid), "+-+-+-+\n| |   |\n+-+-+-+\n");
}

#[test]
fn test_render_empty_grid() {
    let renderer = TextGridRenderer::new();
    assert_eq!(renderer.render(&Grid::new(0, 2)), "+---+---+\n");
    assert_eq!(renderer.render(&Grid::new(2, 0)), "+\n|\n+\n|\n+\n");
}

#[test]
fn test_render_with_labels_centered() {
    let grid = Grid::new(1, 4);
    let labels = vec![
        Some(String::from("7")),
        Some(String::from("ab")),
        None,
        Some(String::from("abcd")),
    ];
    let text = TextGridRenderer::new().render_with(&grid, &labels);
    assert_eq!(text, "+---+---+---+---+\n| 7 |ab |   |abcd|\n+---+---+---+---+\n");
}

#[test]
fn test_render_with_auto_width() {
    let grid = Grid::new(1, 2);
    let labels = vec![Some(String::from("abcd")), Some(String::from("x"))];
    let mut renderer = TextGridRenderer::new();
    renderer.auto_width(1);
    let text = renderer.render_with(&grid, &labels);
    assert_eq!(text, "+------+------+\n| abcd |  x   |\n+------+------+\n");

    // The width does not go below the cell width.
    let mut renderer = TextGridRenderer::new();
    renderer.cell_width(8).auto_width(0);
    let text = renderer.render_with(&grid, &labels);
    assert_eq!(
        text,
        "+--------+--------+\n|  abcd  |   x    |\n+--------+--------+\n"
    );
}

#[test]
fn test_render_with_short_label_list() {
    let grid = Grid::new(1, 2);
    let labels = vec![Some(String::from("a"))];
    let text = TextGridRenderer::new().render_with(&grid, &labels);
    assert_eq!(text, "+---+---+\n| a |   |\n+---+---+\n");
}

#[test]
fn test_render_counts_characters_not_bytes() {
    let grid = Grid::new(1, 1);
    let labels = vec![Some(String::from("\u{e9}"))];
    let text = TextGridRenderer::new().render_with(&grid, &labels);
    assert_eq!(text, "+---+\n| \u{e9} |\n+---+\n");
}

#[test]
fn test_renderer_default_has_no_width() {
    let grid = Grid::new(1, 2);
    let text = TextGridRenderer::default().render(&grid);
    assert_eq!(text, "+++\n|||\n+++\n");
}

#[test]
fn test_grid_to_string() {
    let mut grid = Grid::new(1, 2);
    grid.link(0, 1);
    assert_eq!(grid.to_string(), "Grid(1x2)\n+---+---+\n|       |\n+---+---+\n\n");

    let grid = Grid::new(0, 12);
    assert_eq!(
        grid.to_string(),
        format!("Grid(0x12)\n+{}\n\n", "---+".repeat(12))
    );

    let grid = Grid::new(105, 1);
    assert!(grid.to_string().starts_with("Grid(105x1)\n+---+\n|   |\n"));
}
