//! Mazes on rectangular grids: a cell graph with carved links, path analysis
//! over the links, liveness masks, four maze generators, and renderings of a
//! maze as text and as an image.

pub mod grid;
pub mod grid_dir;
pub mod mask;
pub mod maze;
pub mod paths;
pub mod pixel;
pub mod pixmap;
pub mod random;
pub mod text_grid_renderer;
pub mod tree;

pub use crate::grid::Cell;
pub use crate::grid::Grid;
pub use crate::grid_dir::GridDirection;
pub use crate::mask::Mask;
pub use crate::mask::MaskCell;
pub use crate::maze::binary_tree_maze;
pub use crate::maze::hunt_and_kill;
pub use crate::maze::recursive_backtracker;
pub use crate::maze::sidewinder_maze;
pub use crate::pixel::MoltPixel;
pub use crate::pixmap::Canvas;
pub use crate::pixmap::ImageRenderer;
pub use crate::random::flip;
pub use crate::random::sample;
pub use crate::random::sample_index;
pub use crate::text_grid_renderer::TextGridRenderer;
