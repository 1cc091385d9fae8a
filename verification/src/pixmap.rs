//! Renders a grid as an image: white cells of ten pixels, black walls one pixel
//! wide, a wall wherever a cell is not linked to its eastern or southern
//! neighbor.

use vstd::prelude::*;
use image::ImageBuffer;
use image::Rgb;
use image::RgbImage;
use crate::grid::Grid;

verus! {

/// An RGB image buffer of the `image` crate, `image::RgbImage`, kept opaque:
/// the contracts speak of what it holds through `buffer_pixels` and
/// `buffer_size`.
#[verifier::external_body]
pub struct PixelBuffer {
    image: RgbImage,
}

/// The pixels of a buffer: the red, green and blue channel at each `(x, y)`.
pub uninterp spec fn buffer_pixels(buffer: PixelBuffer) -> Map<(int, int), (u8, u8, u8)>;

/// The width and the height that a buffer was made with.
pub uninterp spec fn buffer_size(buffer: PixelBuffer) -> (nat, nat);

/// Calls `image::ImageBuffer::new`. Trusted: the buffer has the width and the
/// height asked for. The call panics when the buffer, three bytes a pixel, is
/// larger than a vector can be.
#[verifier::external_body]
fn buffer_new(width: u32, height: u32) -> (buffer: PixelBuffer)
    requires
        3 * width * height <= isize::MAX,
    ensures
        buffer_size(buffer) == (width as nat, height as nat),
{
    PixelBuffer { image: ImageBuffer::new(width, height) }
}

/// Calls `image::ImageBuffer::put_pixel`. Trusted: the pixel at `(x, y)` becomes
/// the given color, every other pixel and the size stay. The call panics for a
/// position outside the buffer.
#[verifier::external_body]
fn buffer_put(buffer: &mut PixelBuffer, x: u32, y: u32, color: (u8, u8, u8))
    requires
        x < buffer_size(*old(buffer)).0,
        y < buffer_size(*old(buffer)).1,
    ensures
        buffer_size(*final(buffer)) == buffer_size(*old(buffer)),
        buffer_pixels(*final(buffer)) == buffer_pixels(*old(buffer)).insert(
            (x as int, y as int),
            color,
        ),
{
    buffer.image.put_pixel(x, y, Rgb([color.0, color.1, color.2]));
}

/// Calls `image::ImageBuffer::get_pixel`. Trusted: the result is the color of
/// the pixel at `(x, y)`. The call panics for a position outside the buffer.
#[verifier::external_body]
fn buffer_get(buffer: &PixelBuffer, x: u32, y: u32) -> (color: (u8, u8, u8))
    requires
        x < buffer_size(*buffer).0,
        y < buffer_size(*buffer).1,
    ensures
        color == buffer_pixels(*buffer)[(x as int, y as int)],
{
    let pixel = buffer.image.get_pixel(x, y);
    (pixel.0[0], pixel.0[1], pixel.0[2])
}

/// The color of a wall.
pub open spec fn black() -> (u8, u8, u8) {
    (0u8, 0u8, 0u8)
}

/// The color of the floor of a cell.
pub open spec fn white() -> (u8, u8, u8) {
    (255u8, 255u8, 255u8)
}

/// Whether the pixel at `(x, y)` belongs to a wall. Each cell is ten pixels
/// wide and high; the pixel columns and rows at the multiples of ten hold the
/// walls. The top and the left wall are closed, the corners between cells are
/// always drawn, and between two cells stands a wall unless they are linked.
pub open spec fn is_wall_pixel(g: &Grid, x: int, y: int) -> bool {
    ||| x == 0
    ||| y == 0
    ||| (x % 10 == 0 && y % 10 == 0)
    ||| (x % 10 == 0 && y < 10 * g.rows() && !g.open_east(
        g.cell_at((y / 10) as nat, (x / 10 - 1) as nat) as usize,
    ))
    ||| (y % 10 == 0 && x < 10 * g.cols() && !g.open_south(
        g.cell_at((y / 10 - 1) as nat, (x / 10) as nat) as usize,
    ))
}

/// An image: a rectangle of RGB pixels.
pub struct Canvas {
    width: u32,
    height: u32,
    buffer: PixelBuffer,
}

impl Canvas {
    /// The width of the image in pixels.
    pub closed spec fn spec_width(&self) -> nat {
        self.width as nat
    }

    /// The height of the image in pixels.
    pub closed spec fn spec_height(&self) -> nat {
        self.height as nat
    }

    /// The color of each pixel, by its `(x, y)`.
    pub closed spec fn pixels(&self) -> Map<(int, int), (u8, u8, u8)> {
        buffer_pixels(self.buffer)
    }

    /// The invariant of an image: its buffer has its width and height.
    pub closed spec fn wf(&self) -> bool {
        buffer_size(self.buffer) == (self.width as nat, self.height as nat)
    }

    /// The width of the image in pixels.
    pub fn width(&self) -> (r: u32)
        ensures
            r == self.spec_width(),
    {
        self.width
    }

    /// The height of the image in pixels.
    pub fn height(&self) -> (r: u32)
        ensures
            r == self.spec_height(),
    {
        self.height
    }

    /// The color of the pixel at `(x, y)`, or `None` outside the image.
    pub fn pixel(&self, x: u32, y: u32) -> (r: Option<(u8, u8, u8)>)
        requires
            self.wf(),
        ensures
            r == (if x < self.spec_width() && y < self.spec_height() {
                Some(self.pixels()[(x as int, y as int)])
            } else {
                None
            }),
    {
        if x < self.width && y < self.height {
            Some(buffer_get(&self.buffer, x, y))
        } else {
            None
        }
    }
}

/// Whether the pixel at `(x, y)` belongs to a wall.
fn wall_at(grid: &Grid, x: u32, y: u32) -> (r: bool)
    requires
        grid.wf(),
        x <= 10 * grid.cols(),
        y <= 10 * grid.rows(),
    ensures
        r == is_wall_pixel(grid, x as int, y as int),
{
    if x == 0 || y == 0 || (x % 10 == 0 && y % 10 == 0) {
        return true;
    }
    let num_rows = grid.num_rows();
    let num_cols = grid.num_cols();
    if x % 10 == 0 {
        let i = (y / 10) as usize;
        let j = (x / 10 - 1) as usize;
        if i < num_rows {
            let cell = grid.cell(i, j);
            if !grid.is_linked_east(cell) {
                return true;
            }
        }
    }
    if y % 10 == 0 {
        let i = (y / 10 - 1) as usize;
        let j = (x / 10) as usize;
        if j < num_cols {
            let cell = grid.cell(i, j);
            if !grid.is_linked_south(cell) {
                return true;
            }
        }
    }
    false
}

/// A struct for rendering a grid as an image. Uses the builder pattern.
pub struct ImageRenderer<'a> {
    /// The grid to render
    grid: &'a Grid,
    /// The width of the rendered cell in pixels, not including the borders.
    cell_width: usize,
    /// The height of the rendered cell in pixels.
    cell_height: usize,
    /// The border width, in pixels.
    border_width: usize,
}

impl<'a> ImageRenderer<'a> {
    /// The grid to render.
    pub closed spec fn grid(&self) -> &Grid {
        self.grid
    }

    /// The cell width, cell height and border width that were asked for.
    pub closed spec fn settings(&self) -> (nat, nat, nat) {
        (self.cell_width as nat, self.cell_height as nat, self.border_width as nat)
    }

    /// Whether an image of the grid can be made: its width, its height and
    /// its bytes, three a pixel, can be counted.
    pub open spec fn fits(g: &Grid) -> bool {
        &&& 1 + 10 * g.cols() <= u32::MAX
        &&& 1 + 10 * g.rows() <= u32::MAX
        &&& 3 * (1 + 10 * g.cols()) * (1 + 10 * g.rows()) <= isize::MAX
    }

    /// Creates a new renderer for the Grid with default settings
    pub fn new(grid: &'a Grid) -> (r: Self)
        ensures
            r.grid() == grid,
            r.settings() == (10nat, 10nat, 1nat),
    {
        Self { grid, cell_width: 10, cell_height: 10, border_width: 1 }
    }

    /// Adds the desired cell width.
    pub fn cell_width(self, cell_width: usize) -> (r: Self)
        requires
            cell_width > 0,
        ensures
            r.grid() == self.grid(),
            r.settings() == (cell_width as nat, self.settings().1, self.settings().2),
    {
        let mut renderer = self;
        renderer.cell_width = cell_width;
        renderer
    }

    /// Adds the desired cell height.
    pub fn cell_height(self, cell_height: usize) -> (r: Self)
        requires
            cell_height > 0,
        ensures
            r.grid() == self.grid(),
            r.settings() == (self.settings().0, cell_height as nat, self.settings().2),
    {
        let mut renderer = self;
        renderer.cell_height = cell_height;
        renderer
    }

    /// Adds the desired cell width and height.
    pub fn cell_size(self, cell_size: usize) -> (r: Self)
        requires
            cell_size > 0,
        ensures
            r.grid() == self.grid(),
            r.settings() == (cell_size as nat, cell_size as nat, self.settings().2),
    {
        let mut renderer = self;
        renderer.cell_width = cell_size;
        renderer.cell_height = cell_size;
        renderer
    }

    /// Adds the desired border width.
    pub fn border_width(self, border_width: usize) -> (r: Self)
        requires
            border_width > 0,
        ensures
            r.grid() == self.grid(),
            r.settings() == (self.settings().0, self.settings().1, border_width as nat),
    {
        let mut renderer = self;
        renderer.border_width = border_width;
        renderer
    }

    /// Render the grid. Whatever the settings, every cell is ten pixels wide and
    /// high and every wall one pixel wide: the image is `1 + 10 * cols` pixels
    /// wide and `1 + 10 * rows` high, black on the walls and white elsewhere.
    pub fn render(self) -> (image: Canvas)
        requires
            self.grid().wf(),
            Self::fits(self.grid()),
        ensures
            image.wf(),
            image.spec_width() == 1 + 10 * self.grid().cols(),
            image.spec_height() == 1 + 10 * self.grid().rows(),
            forall|x: int, y: int|
                0 <= x < image.spec_width() && 0 <= y < image.spec_height() ==> #[trigger] image.pixels()[(
                    x,
                    y,
                )] == (if is_wall_pixel(self.grid(), x, y) {
                    black()
                } else {
                    white()
                }),
    {
        // FIRST, size and create the image
        let size: u32 = 10;
        let grid = self.grid;
        let num_cols = grid.num_cols();
        let num_rows = grid.num_rows();
        let width = 1 + size * (num_cols as u32);
        let height = 1 + size * (num_rows as u32);
        let mut buffer = buffer_new(width, height);

        // NEXT, give each pixel its color.
        let mut y: u32 = 0;
        while y < height
            invariant
                grid.wf(),
                width == 1 + 10 * grid.cols(),
                height == 1 + 10 * grid.rows(),
                y <= height,
                buffer_size(buffer) == (width as nat, height as nat),
                forall|px: int, py: int|
                    0 <= px < width && 0 <= py < y ==> #[trigger] buffer_pixels(buffer)[(px, py)]
                        == (if is_wall_pixel(grid, px, py) {
                        black()
                    } else {
                        white()
                    }),
            decreases height - y,
        {
            let mut x: u32 = 0;
            while x < width
                invariant
                    grid.wf(),
                    width == 1 + 10 * grid.cols(),
                    height == 1 + 10 * grid.rows(),
                    y < height,
                    x <= width,
                    buffer_size(buffer) == (width as nat, height as nat),
                    forall|px: int, py: int|
                        0 <= px < width && 0 <= py < y ==> #[trigger] buffer_pixels(buffer)[(
                            px,
                            py,
                        )] == (if is_wall_pixel(grid, px, py) {
                            black()
                        } else {
                            white()
                        }),
                    forall|px: int|
                        0 <= px < x ==> #[trigger] buffer_pixels(buffer)[(px, y as int)] == (
                        if is_wall_pixel(grid, px, y as int) {
                            black()
                        } else {
                            white()
                        }),
                decreases width - x,
            {
                let color: (u8, u8, u8) = if wall_at(grid, x, y) {
                    (0, 0, 0)
                } else {
                    (255, 255, 255)
                };
                buffer_put(&mut buffer, x, y, color);
                x += 1;
            }
            y += 1;
        }
        Canvas { width, height, buffer }
    }
}

impl Grid {
    /// Renders the maze to an image, which can then be read pixel by pixel.
    pub fn to_image(&self) -> (image: Canvas)
        requires
            self.wf(),
            ImageRenderer::fits(self),
        ensures
            image.wf(),
            image.spec_width() == 1 + 10 * self.cols(),
            image.spec_height() == 1 + 10 * self.rows(),
            forall|x: int, y: int|
                0 <= x < image.spec_width() && 0 <= y < image.spec_height() ==> #[trigger] image.pixels()[(
                    x,
                    y,
                )] == (if is_wall_pixel(self, x, y) {
                    black()
                } else {
                    white()
                }),
    {
        ImageRenderer::new(self).cell_size(10).border_width(2).render()
    }
}

} // verus!
