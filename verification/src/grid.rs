//! A rectangular grid of cells that can be linked into a maze.

use vstd::prelude::*;
use vstd::std_specs::cmp::PartialEqSpecImpl;
use crate::grid_dir::GridDirection;

verus! {

/// A cell ID: a dense integer in `[0, rows * cols)`, numbered row by row.
pub type Cell = usize;

/// The list `s` with `x` appended unless it is already there.
pub open spec fn list_with(s: Seq<Cell>, x: Cell) -> Seq<Cell> {
    if s.contains(x) {
        s
    } else {
        s.push(x)
    }
}

/// The list `s` with the first occurrence of `x` taken out.
pub open spec fn list_without(s: Seq<Cell>, x: Cell) -> Seq<Cell> {
    if s.contains(x) {
        s.remove(s.index_of(x))
    } else {
        s
    }
}

/// Finds the first position of `x` in `v`.
fn position(v: &Vec<Cell>, x: Cell) -> (r: Option<usize>)
    ensures
        match r {
            Some(k) => k < v@.len() && v@[k as int] == x && forall|m: int|
                0 <= m < k ==> v@[m] != x,
            None => !v@.contains(x),
        },
{
    let mut k: usize = 0;
    while k < v.len()
        invariant
            k <= v@.len(),
            forall|m: int| 0 <= m < k ==> v@[m] != x,
        decreases v@.len() - k,
    {
        if v[k] == x {
            return Some(k);
        }
        k += 1;
    }
    None
}

#[derive(Debug, Clone)]
struct CellData {
    cell: Cell,
    links: Vec<Cell>,
    north: Option<Cell>,
    south: Option<Cell>,
    east: Option<Cell>,
    west: Option<Cell>,
}

impl CellData {
    /// Inserts a link to the given cell.
    fn link(&mut self, other: Cell)
        ensures
            final(self).links@ == list_with(old(self).links@, other),
            final(self).cell == old(self).cell,
            final(self).north == old(self).north,
            final(self).south == old(self).south,
            final(self).east == old(self).east,
            final(self).west == old(self).west,
    {
        if position(&self.links, other).is_none() {
            self.links.push(other);
        }
    }

    /// Removes a link to the given cell.
    fn unlink(&mut self, other: Cell)
        requires
            old(self).links@.no_duplicates(),
        ensures
            final(self).links@ == list_without(old(self).links@, other),
            final(self).cell == old(self).cell,
            final(self).north == old(self).north,
            final(self).south == old(self).south,
            final(self).east == old(self).east,
            final(self).west == old(self).west,
    {
        match position(&self.links, other) {
            Some(k) => {
                proof {
                    self.links@.index_of_first_ensures(other);
                }
                self.links.remove(k);
            },
            None => {},
        }
    }

    /// The geometric neighbors that exist, in the order north, south, east, west.
    fn neighbors(&self) -> (r: Vec<Cell>)
        ensures
            r@ == neighbor_list(self.north, self.south, self.east, self.west),
    {
        let mut vec: Vec<Cell> = Vec::new();
        if let Some(cell) = self.north {
            vec.push(cell);
        }
        if let Some(cell) = self.south {
            vec.push(cell);
        }
        if let Some(cell) = self.east {
            vec.push(cell);
        }
        if let Some(cell) = self.west {
            vec.push(cell);
        }
        vec
    }
}

/// The list of the neighbors that exist among the four given ones, in that order.
pub open spec fn neighbor_list(
    north: Option<Cell>,
    south: Option<Cell>,
    east: Option<Cell>,
    west: Option<Cell>,
) -> Seq<Cell> {
    option_list(north) + option_list(south) + option_list(east) + option_list(west)
}

/// The empty list for `None`, the one-element list for `Some`.
pub open spec fn option_list(o: Option<Cell>) -> Seq<Cell> {
    match o {
        Some(c) => seq![c],
        None => Seq::empty(),
    }
}


/// Whether every cell of `a` is in `b`.
fn list_subset(a: &Vec<Cell>, b: &Vec<Cell>) -> (r: bool)
    ensures
        r == forall|x: Cell| a@.contains(x) ==> b@.contains(x),
{
    let mut k: usize = 0;
    while k < a.len()
        invariant
            k <= a@.len(),
            forall|m: int| 0 <= m < k ==> b@.contains(#[trigger] a@[m]),
        decreases a@.len() - k,
    {
        if position(b, a[k]).is_none() {
            proof {
                assert(a@.contains(a@[k as int]));
            }
            return false;
        }
        k += 1;
    }
    true
}

/// Whether two cell records hold the same cell, the same neighbors and links
/// to the same cells.
spec fn same_record(a: CellData, b: CellData) -> bool {
    &&& a.cell == b.cell
    &&& a.north == b.north
    &&& a.south == b.south
    &&& a.east == b.east
    &&& a.west == b.west
    &&& forall|x: Cell| a.links@.contains(x) <==> b.links@.contains(x)
}

/// Compares two cell records.
fn records_equal(a: &CellData, b: &CellData) -> (r: bool)
    ensures
        r == same_record(*a, *b),
{
    a.cell == b.cell && a.north == b.north && a.south == b.south && a.east == b.east && a.west
        == b.west && list_subset(&a.links, &b.links) && list_subset(&b.links, &a.links)
}

/// The mathematical content of a grid: its dimensions and, for each cell, the
/// duplicate-free list of the cells it is linked to, in the order the links were made.
pub struct GridModel {
    pub rows: nat,
    pub cols: nat,
    pub links: Seq<Seq<Cell>>,
}

/// A rectangular grid of cells. Each cell has up to four geometric neighbors, fixed
/// by its position, and may be linked to other cells; links are symmetric.
///
/// A cell is named by its ID or by its `(row, column)` pair; `id = row * cols + column`.
#[derive(Debug, Clone)]
pub struct Grid {
    num_rows: usize,
    num_cols: usize,
    num_cells: usize,
    cells: Vec<CellData>,
}

impl View for Grid {
    type V = GridModel;

    closed spec fn view(&self) -> GridModel {
        GridModel {
            rows: self.num_rows as nat,
            cols: self.num_cols as nat,
            links: Seq::new(self.cells@.len(), |c: int| self.cells@[c].links@),
        }
    }
}

impl Grid {
    /// Whether two grids are equal: they have the same dimensions and the same
    /// cells, each with the same neighbors and linked to the same cells, in
    /// whatever order the links were made.
    pub closed spec fn same_as(&self, other: &Grid) -> bool {
        &&& self.num_rows == other.num_rows
        &&& self.num_cols == other.num_cols
        &&& self.num_cells == other.num_cells
        &&& self.cells@.len() == other.cells@.len()
        &&& forall|c: int|
            0 <= c < self.cells@.len() ==> #[trigger] same_record(self.cells@[c], other.cells@[c])
    }

    /// Equal grids have the same dimensions and the same links.
    pub proof fn lemma_same_as(&self, other: &Grid)
        requires
            self.same_as(other),
        ensures
            self.rows() == other.rows(),
            self.cols() == other.cols(),
            self.size() == other.size(),
            forall|a: Cell, b: Cell| self.linked(a, b) == other.linked(a, b),
    {
        assert forall|a: Cell, b: Cell| self.linked(a, b) == other.linked(a, b) by {
            if self.has_cell(a) {
                assert(same_record(self.cells@[a as int], other.cells@[a as int]));
            }
        }
    }
}

impl PartialEq for Grid {
    /// Whether two grids have the same dimensions and the same links.
    fn eq(&self, other: &Self) -> (r: bool) {
        if self.num_rows != other.num_rows || self.num_cols != other.num_cols || self.num_cells
            != other.num_cells || self.cells.len() != other.cells.len() {
            return false;
        }
        let mut c: usize = 0;
        while c < self.cells.len()
            invariant
                c <= self.cells@.len(),
                self.cells@.len() == other.cells@.len(),
                forall|k: int|
                    0 <= k < c ==> #[trigger] same_record(self.cells@[k], other.cells@[k]),
            decreases self.cells@.len() - c,
        {
            if !records_equal(&self.cells[c], &other.cells[c]) {
                return false;
            }
            c += 1;
        }
        true
    }
}

impl PartialEqSpecImpl for Grid {
    open spec fn obeys_eq_spec() -> bool {
        true
    }

    open spec fn eq_spec(&self, other: &Grid) -> bool {
        self.same_as(other)
    }
}

impl Eq for Grid {

}

impl Grid {
    /// The number of rows.
    pub open spec fn rows(&self) -> nat {
        self@.rows
    }

    /// The number of columns.
    pub open spec fn cols(&self) -> nat {
        self@.cols
    }

    /// The number of cells.
    pub open spec fn size(&self) -> nat {
        self@.links.len()
    }

    /// Whether `c` is a cell of this grid.
    pub open spec fn has_cell(&self, c: Cell) -> bool {
        c < self.size()
    }

    /// The cells that `c` is linked to, in the order the links were made.
    pub open spec fn link_list(&self, c: Cell) -> Seq<Cell> {
        self@.links[c as int]
    }

    /// Whether there is a link between `a` and `b`.
    pub open spec fn linked(&self, a: Cell, b: Cell) -> bool {
        self.has_cell(a) && self.link_list(a).contains(b)
    }

    /// The row of cell `c`.
    pub open spec fn row_of(&self, c: Cell) -> nat {
        c as nat / self.cols()
    }

    /// The column of cell `c`.
    pub open spec fn col_of(&self, c: Cell) -> nat {
        c as nat % self.cols()
    }

    /// The ID of the cell in row `i` and column `j`.
    pub open spec fn cell_at(&self, i: nat, j: nat) -> nat {
        i * self.cols() + j
    }

    /// The neighbor one row up, if `c` is not in the first row.
    pub open spec fn north(&self, c: Cell) -> Option<Cell> {
        if self.row_of(c) > 0 {
            Some((c - self.cols()) as usize)
        } else {
            None
        }
    }

    /// The neighbor one row down, if `c` is not in the last row.
    pub open spec fn south(&self, c: Cell) -> Option<Cell> {
        if self.row_of(c) + 1 < self.rows() {
            Some((c + self.cols()) as usize)
        } else {
            None
        }
    }

    /// The neighbor one column right, if `c` is not in the last column.
    pub open spec fn east(&self, c: Cell) -> Option<Cell> {
        if self.col_of(c) + 1 < self.cols() {
            Some((c + 1) as usize)
        } else {
            None
        }
    }

    /// The neighbor one column left, if `c` is not in the first column.
    pub open spec fn west(&self, c: Cell) -> Option<Cell> {
        if self.col_of(c) > 0 {
            Some((c - 1) as usize)
        } else {
            None
        }
    }

    /// The neighbor of `c` in direction `dir`, if there is one.
    pub open spec fn toward(&self, c: Cell, dir: GridDirection) -> Option<Cell> {
        match dir {
            GridDirection::North => self.north(c),
            GridDirection::South => self.south(c),
            GridDirection::East => self.east(c),
            GridDirection::West => self.west(c),
        }
    }

    /// Whether `c` is linked to its neighbor in direction `dir`.
    pub open spec fn open_to(&self, c: Cell, dir: GridDirection) -> bool {
        match self.toward(c, dir) {
            Some(other) => self.linked(c, other),
            None => false,
        }
    }

    /// Whether `c` is linked to its northern neighbor.
    pub open spec fn open_north(&self, c: Cell) -> bool {
        self.open_to(c, GridDirection::North)
    }

    /// Whether `c` is linked to its southern neighbor.
    pub open spec fn open_south(&self, c: Cell) -> bool {
        self.open_to(c, GridDirection::South)
    }

    /// Whether `c` is linked to its eastern neighbor.
    pub open spec fn open_east(&self, c: Cell) -> bool {
        self.open_to(c, GridDirection::East)
    }

    /// Whether `c` is linked to its western neighbor.
    pub open spec fn open_west(&self, c: Cell) -> bool {
        self.open_to(c, GridDirection::West)
    }

    /// The geometric neighbors of `c`, in the order north, south, east, west.
    pub open spec fn neighbor_cells(&self, c: Cell) -> Seq<Cell> {
        neighbor_list(self.north(c), self.south(c), self.east(c), self.west(c))
    }

    /// Whether `a` and `b` are geometric neighbors.
    pub open spec fn adjacent(&self, a: Cell, b: Cell) -> bool {
        self.north(a) == Some(b) || self.south(a) == Some(b) || self.east(a) == Some(b)
            || self.west(a) == Some(b)
    }

    /// Whether no cell is linked to any cell.
    pub open spec fn no_links(&self) -> bool {
        forall|c: Cell| self.has_cell(c) ==> #[trigger] self.link_list(c) == Seq::<Cell>::empty()
    }

    spec fn cell_ok(&self, c: int) -> bool {
        let d = self.cells@[c];
        &&& d.cell == c
        &&& d.north == self.north(c as usize)
        &&& d.south == self.south(c as usize)
        &&& d.east == self.east(c as usize)
        &&& d.west == self.west(c as usize)
        &&& d.links@.no_duplicates()
        &&& forall|k: int| 0 <= k < d.links@.len() ==> #[trigger] d.links@[k] < self.num_cells
    }

    /// The invariant of a grid: the number of cells is `rows * cols`, every cell
    /// record holds the neighbors that its position gives it, every link list is
    /// duplicate-free and names cells of the grid, and links are symmetric.
    pub closed spec fn wf(&self) -> bool {
        &&& self.num_cells == self.num_rows * self.num_cols
        &&& self.cells@.len() == self.num_cells
        &&& forall|c: int| 0 <= c < self.cells@.len() ==> #[trigger] self.cell_ok(c)
        &&& forall|a: Cell, b: Cell| #[trigger] self.linked(a, b) ==> self.linked(b, a)
    }

    /// What the invariant says of the links and of the size.
    pub proof fn lemma_wf(&self)
        requires
            self.wf(),
        ensures
            self.size() == self.rows() * self.cols(),
            self.size() <= usize::MAX,
            forall|a: Cell, b: Cell| #[trigger]
                self.linked(a, b) ==> self.linked(b, a) && self.has_cell(b),
            forall|c: Cell| self.has_cell(c) ==> #[trigger] self.link_list(c).no_duplicates(),
    {
        assert forall|c: Cell| self.has_cell(c) implies #[trigger] self.link_list(
            c,
        ).no_duplicates() by {
            assert(self.cell_ok(c as int));
        }
    }

    /// Links are symmetric: `a` is linked to `b` exactly when `b` is linked to `a`.
    pub proof fn lemma_linked_symmetric(&self, a: Cell, b: Cell)
        requires
            self.wf(),
        ensures
            self.linked(a, b) == self.linked(b, a),
    {
    }

    /// Cell IDs and `(row, column)` pairs convert into each other without loss.
    pub proof fn lemma_cell_roundtrip(&self, i: nat, j: nat)
        requires
            self.wf(),
            i < self.rows(),
            j < self.cols(),
        ensures
            self.cell_at(i, j) < self.size(),
            self.row_of(self.cell_at(i, j) as usize) == i,
            self.col_of(self.cell_at(i, j) as usize) == j,
    {
        lemma_cell_bounds(self.rows(), self.cols(), i, j);
    }

    /// Every cell is the cell at its own row and column.
    pub proof fn lemma_coords_roundtrip(&self, c: Cell)
        requires
            self.wf(),
            self.has_cell(c),
        ensures
            self.row_of(c) < self.rows(),
            self.col_of(c) < self.cols(),
            self.cell_at(self.row_of(c), self.col_of(c)) == c,
    {
        lemma_coords_bounds(self.rows(), self.cols(), c as nat);
    }

    /// Creates a grid with the given dimensions in which no cell is linked.
    pub fn new(num_rows: usize, num_cols: usize) -> (grid: Self)
        requires
            num_rows * num_cols <= usize::MAX,
        ensures
            grid.wf(),
            grid.rows() == num_rows,
            grid.cols() == num_cols,
            grid.size() == num_rows * num_cols,
            grid.no_links(),
    {
        let num_cells = num_rows * num_cols;
        let cells: Vec<CellData> = Vec::with_capacity(num_cells);
        let mut grid = Self { num_rows, num_cols, num_cells, cells };

        let mut cell: usize = 0;
        while cell < num_cells
            invariant
                cell <= num_cells,
                num_cells == num_rows * num_cols,
                grid.num_rows == num_rows,
                grid.num_cols == num_cols,
                grid.num_cells == num_cells,
                grid.cells@.len() == cell,
                forall|c: int| 0 <= c < cell ==> #[trigger] grid.cell_ok(c),
                forall|c: int| 0 <= c < cell ==> (#[trigger] grid.cells@[c]).links@.len() == 0,
            decreases num_cells - cell,
        {
            proof {
                if num_cols == 0 {
                    assert(num_rows * num_cols == 0) by (nonlinear_arith)
                        requires
                            num_cols == 0,
                    ;
                }
                lemma_neighbor_coords(num_rows as nat, num_cols as nat, cell as nat);
            }
            let i = cell / num_cols;
            let j = cell % num_cols;

            let north = if i > 0 {
                Some(cell - num_cols)
            } else {
                None
            };
            let south = if i < num_rows - 1 {
                Some(cell + num_cols)
            } else {
                None
            };
            let east = if j < num_cols - 1 {
                Some(cell + 1)
            } else {
                None
            };
            let west = if j > 0 {
                Some(cell - 1)
            } else {
                None
            };
            let ghost before = grid;
            grid.cells.push(CellData { cell, links: Vec::new(), north, south, east, west });
            proof {
                assert forall|c: int| 0 <= c < cell + 1 implies #[trigger] grid.cell_ok(c) by {
                    if c < cell {
                        assert(before.cell_ok(c));
                    }
                }
            }
            cell += 1;
        }
        proof {
            assert forall|c: Cell| grid.has_cell(c) implies #[trigger] grid.link_list(c)
                == Seq::<Cell>::empty() by {
                assert(grid.cells@[c as int].links@.len() == 0);
                assert(grid.link_list(c) =~= Seq::<Cell>::empty());
            }
        }
        grid
    }

    /// The number of rows in the grid.
    pub fn num_rows(&self) -> (r: usize)
        ensures
            r == self.rows(),
    {
        self.num_rows
    }

    /// The number of columns in the grid.
    pub fn num_cols(&self) -> (r: usize)
        ensures
            r == self.cols(),
    {
        self.num_cols
    }

    /// The number of cells in the grid.
    pub fn num_cells(&self) -> (r: usize)
        requires
            self.wf(),
        ensures
            r == self.size(),
            r == self.rows() * self.cols(),
    {
        self.num_cells
    }

    /// Does the grid contain the cell?
    pub fn contains(&self, cell: Cell) -> (r: bool)
        requires
            self.wf(),
        ensures
            r == self.has_cell(cell),
    {
        cell < self.num_cells
    }

    /// Computes the cell from the row and column.
    pub fn cell(&self, i: usize, j: usize) -> (r: Cell)
        requires
            self.wf(),
            i < self.rows(),
            j < self.cols(),
        ensures
            r == self.cell_at(i as nat, j as nat),
            self.has_cell(r),
            self.row_of(r) == i,
            self.col_of(r) == j,
    {
        proof {
            lemma_cell_bounds(self.rows(), self.cols(), i as nat, j as nat);
            assert(i * self.num_cols <= self.cell_at(i as nat, j as nat));
        }
        i * self.num_cols + j
    }

    /// Computes the row index from the cell ID.
    pub fn i(&self, cell: Cell) -> (r: usize)
        requires
            self.wf(),
            self.has_cell(cell),
        ensures
            r == self.row_of(cell),
            r < self.rows(),
    {
        proof {
            lemma_coords_bounds(self.rows(), self.cols(), cell as nat);
        }
        cell / self.num_cols
    }

    /// Computes the column index from the cell ID.
    pub fn j(&self, cell: Cell) -> (r: usize)
        requires
            self.wf(),
            self.has_cell(cell),
        ensures
            r == self.col_of(cell),
            r < self.cols(),
    {
        proof {
            lemma_coords_bounds(self.rows(), self.cols(), cell as nat);
        }
        cell % self.num_cols
    }

    /// Computes the row and column indices from the cell ID.
    pub fn ij(&self, cell: Cell) -> (r: (usize, usize))
        requires
            self.wf(),
            self.has_cell(cell),
        ensures
            r.0 == self.row_of(cell),
            r.1 == self.col_of(cell),
            r.0 < self.rows(),
            r.1 < self.cols(),
            self.cell_at(r.0 as nat, r.1 as nat) == cell,
    {
        proof {
            lemma_coords_bounds(self.rows(), self.cols(), cell as nat);
        }
        (cell / self.num_cols, cell % self.num_cols)
    }

    /// Links cell 1 to cell 2, in both directions. The two cells need not be neighbors.
    pub fn link(&mut self, cell1: Cell, cell2: Cell)
        requires
            old(self).wf(),
            old(self).has_cell(cell1),
            old(self).has_cell(cell2),
        ensures
            final(self).wf(),
            final(self).rows() == old(self).rows(),
            final(self).cols() == old(self).cols(),
            final(self).size() == old(self).size(),
            forall|c: Cell|
                old(self).has_cell(c) ==> #[trigger] final(self).link_list(c) == (if c == cell1 {
                    list_with(old(self).link_list(c), cell2)
                } else if c == cell2 {
                    list_with(old(self).link_list(c), cell1)
                } else {
                    old(self).link_list(c)
                }),
            forall|a: Cell, b: Cell| #[trigger]
                final(self).linked(a, b) <==> (old(self).linked(a, b) || (a == cell1 && b == cell2)
                    || (a == cell2 && b == cell1)),
    {
        let ghost before = *self;
        proof {
            assert(before.cell_ok(cell1 as int));
            assert(before.cell_ok(cell2 as int));
            lemma_list_with(before.link_list(cell1), cell2);
            lemma_list_with(before.link_list(cell2), cell1);
        }
        self.cells[cell1].link(cell2);
        let ghost mid = *self;
        self.cells[cell2].link(cell1);
        proof {
            assert(before.cell_ok(cell1 as int));
            assert(before.cell_ok(cell2 as int));
            assert forall|c: Cell| before.has_cell(c) implies #[trigger] self.link_list(c) == (if c
                == cell1 {
                list_with(before.link_list(c), cell2)
            } else if c == cell2 {
                list_with(before.link_list(c), cell1)
            } else {
                before.link_list(c)
            }) by {
                if c == cell1 && c == cell2 {
                    assert(mid.cells@[c as int].links@ == list_with(before.link_list(c), cell2));
                    assert(mid.cells@[c as int].links@.contains(cell2));
                } else if c == cell1 {
                    assert(self.cells@[c as int] == mid.cells@[c as int]);
                } else if c == cell2 {
                    assert(mid.cells@[c as int] == before.cells@[c as int]);
                } else {
                    assert(mid.cells@[c as int] == before.cells@[c as int]);
                    assert(self.cells@[c as int] == mid.cells@[c as int]);
                }
            }
            assert forall|c: int| 0 <= c < self.cells@.len() implies #[trigger] self.cell_ok(
                c,
            ) by {
                assert(before.cell_ok(c));
                assert(self.link_list(c as usize) == self.cells@[c].links@);
            }
            assert forall|a: Cell, b: Cell| #[trigger]
                self.linked(a, b) <==> (before.linked(a, b) || (a == cell1 && b == cell2) || (a
                    == cell2 && b == cell1)) by {
                if before.has_cell(a) {
                    assert(self.link_list(a) == (if a == cell1 {
                        list_with(before.link_list(a), cell2)
                    } else if a == cell2 {
                        list_with(before.link_list(a), cell1)
                    } else {
                        before.link_list(a)
                    }));
                }
            }
            assert forall|a: Cell, b: Cell| #[trigger] self.linked(a, b) implies self.linked(
                b,
                a,
            ) by {
                if before.linked(a, b) {
                    assert(before.linked(b, a));
                }
            }
        }
    }

    /// Unlinks cell 1 from cell 2, in both directions.
    pub fn unlink(&mut self, cell1: Cell, cell2: Cell)
        requires
            old(self).wf(),
            old(self).has_cell(cell1),
            old(self).has_cell(cell2),
        ensures
            final(self).wf(),
            final(self).rows() == old(self).rows(),
            final(self).cols() == old(self).cols(),
            final(self).size() == old(self).size(),
            forall|c: Cell|
                old(self).has_cell(c) ==> #[trigger] final(self).link_list(c) == (if c == cell1 {
                    list_without(old(self).link_list(c), cell2)
                } else if c == cell2 {
                    list_without(old(self).link_list(c), cell1)
                } else {
                    old(self).link_list(c)
                }),
            forall|a: Cell, b: Cell| #[trigger]
                final(self).linked(a, b) <==> (old(self).linked(a, b) && !(a == cell1 && b == cell2)
                    && !(a == cell2 && b == cell1)),
    {
        let ghost before = *self;
        proof {
            assert(before.cell_ok(cell1 as int));
            assert(before.cell_ok(cell2 as int));
            lemma_list_without(before.link_list(cell1), cell2);
            lemma_list_without(before.link_list(cell2), cell1);
        }
        self.cells[cell1].unlink(cell2);
        let ghost mid = *self;
        proof {
            assert(mid.cells@[cell2 as int].links@.no_duplicates());
        }
        self.cells[cell2].unlink(cell1);
        proof {
            assert forall|c: Cell| before.has_cell(c) implies #[trigger] self.link_list(c) == (if c
                == cell1 {
                list_without(before.link_list(c), cell2)
            } else if c == cell2 {
                list_without(before.link_list(c), cell1)
            } else {
                before.link_list(c)
            }) by {
                assert(mid.cells@[c as int] == before.cells@[c as int] || c == cell1);
            }
            assert forall|c: int| 0 <= c < self.cells@.len() implies #[trigger] self.cell_ok(
                c,
            ) by {
                assert(before.cell_ok(c));
                assert(self.link_list(c as usize) == self.cells@[c].links@);
            }
            assert forall|a: Cell, b: Cell| #[trigger]
                self.linked(a, b) <==> (before.linked(a, b) && !(a == cell1 && b == cell2) && !(a
                    == cell2 && b == cell1)) by {
                if before.has_cell(a) {
                    assert(self.link_list(a) == (if a == cell1 {
                        list_without(before.link_list(a), cell2)
                    } else if a == cell2 {
                        list_without(before.link_list(a), cell1)
                    } else {
                        before.link_list(a)
                    }));
                }
            }
            assert forall|a: Cell, b: Cell| #[trigger] self.linked(a, b) implies self.linked(
                b,
                a,
            ) by {
                assert(before.linked(b, a));
            }
        }
    }

    /// Gets the cells linked to this cell, in the order the links were made.
    pub fn links(&self, cell: Cell) -> (r: Vec<Cell>)
        requires
            self.wf(),
            self.has_cell(cell),
        ensures
            r@ == self.link_list(cell),
            r@.no_duplicates(),
            forall|x: Cell| r@.contains(x) <==> self.linked(cell, x),
    {
        proof {
            assert(self.cell_ok(cell as int));
        }
        self.cells[cell].links.clone()
    }

    /// Indicates whether or not the cells are linked.
    pub fn is_linked(&self, cell1: Cell, cell2: Cell) -> (r: bool)
        requires
            self.wf(),
            self.has_cell(cell1),
            self.has_cell(cell2),
        ensures
            r == self.linked(cell1, cell2),
            r == self.linked(cell2, cell1),
    {
        proof {
            self.lemma_linked_symmetric(cell1, cell2);
        }
        position(&self.cells[cell1].links, cell2).is_some()
    }

    /// Indicates whether the cell is linked to its neighbor in the given direction.
    /// Returns false if there is no such neighbor.
    pub fn is_linked_to(&self, cell: Cell, dir: GridDirection) -> (r: bool)
        requires
            self.wf(),
            self.has_cell(cell),
        ensures
            r == self.open_to(cell, dir),
    {
        match dir {
            GridDirection::North => self.is_linked_north(cell),
            GridDirection::South => self.is_linked_south(cell),
            GridDirection::East => self.is_linked_east(cell),
            GridDirection::West => self.is_linked_west(cell),
        }
    }

    /// Gets the neighbors to the north, south, east, and west of this cell, in that
    /// order, whatever the links are.
    pub fn neighbors(&self, cell: Cell) -> (r: Vec<Cell>)
        requires
            self.wf(),
            self.has_cell(cell),
        ensures
            r@ == self.neighbor_cells(cell),
            forall|x: Cell| #[trigger] r@.contains(x) ==> self.adjacent(cell, x),
            forall|x: Cell| #[trigger] self.adjacent(cell, x) ==> r@.contains(x),
            forall|k: int| 0 <= k < r@.len() ==> self.has_cell(#[trigger] r@[k]),
    {
        proof {
            assert(self.cell_ok(cell as int));
            self.lemma_neighbor_cells(cell);
        }
        self.cells[cell].neighbors()
    }

    /// The neighbor list holds exactly the adjacent cells, and all are in the grid.
    pub proof fn lemma_neighbor_cells(&self, cell: Cell)
        requires
            self.wf(),
            self.has_cell(cell),
        ensures
            forall|x: Cell| self.neighbor_cells(cell).contains(x) <==> self.adjacent(cell, x),
            forall|x: Cell| self.adjacent(cell, x) ==> self.has_cell(x) && x != cell,
            self.neighbor_cells(cell).no_duplicates(),
            self.neighbor_cells(cell).len() <= 4,
    {
        lemma_neighbor_coords(self.rows(), self.cols(), cell as nat);
        let l = self.neighbor_cells(cell);
        let a = option_list(self.north(cell));
        let b = option_list(self.south(cell));
        let c = option_list(self.east(cell));
        let d = option_list(self.west(cell));
        assert(l == a + b + c + d);
        assert forall|x: Cell| l.contains(x) <==> self.adjacent(cell, x) by {
            if self.adjacent(cell, x) {
                if self.north(cell) == Some(x) {
                    assert(a[0] == x);
                    assert(l[0] == x);
                } else if self.south(cell) == Some(x) {
                    assert(b[0] == x);
                    assert(l[a.len() as int] == x);
                } else if self.east(cell) == Some(x) {
                    assert(c[0] == x);
                    assert(l[(a.len() + b.len()) as int] == x);
                } else {
                    assert(d[0] == x);
                    assert(l[(a.len() + b.len() + c.len()) as int] == x);
                }
            }
            if l.contains(x) {
                let k = choose|k: int| 0 <= k < l.len() && l[k] == x;
                assert(l[k] == x);
            }
        }
    }

    /// Being neighbors is mutual: the neighbor to the north has this cell to its
    /// south, and so on; and no cell is its own neighbor.
    pub proof fn lemma_adjacent_symmetric(&self, a: Cell, b: Cell)
        requires
            self.wf(),
            self.has_cell(a),
        ensures
            self.north(a) == Some(b) ==> self.has_cell(b) && self.south(b) == Some(a),
            self.south(a) == Some(b) ==> self.has_cell(b) && self.north(b) == Some(a),
            self.east(a) == Some(b) ==> self.has_cell(b) && self.west(b) == Some(a),
            self.west(a) == Some(b) ==> self.has_cell(b) && self.east(b) == Some(a),
            self.adjacent(a, b) ==> self.has_cell(b) && self.adjacent(b, a) && a != b,
    {
        lemma_neighbor_coords(self.rows(), self.cols(), a as nat);
        if self.adjacent(a, b) {
            lemma_neighbor_coords(self.rows(), self.cols(), b as nat);
        }
    }

    /// Gets the cell in the given direction, if any.
    pub fn cell_to(&self, cell: Cell, dir: GridDirection) -> (r: Option<Cell>)
        requires
            self.wf(),
            self.has_cell(cell),
        ensures
            r == self.toward(cell, dir),
            r is Some ==> self.has_cell(r.unwrap()),
    {
        match dir {
            GridDirection::North => self.north_of(cell),
            GridDirection::South => self.south_of(cell),
            GridDirection::East => self.east_of(cell),
            GridDirection::West => self.west_of(cell),
        }
    }

    /// Gets the cell to the north, if any.
    pub fn north_of(&self, cell: Cell) -> (r: Option<Cell>)
        requires
            self.wf(),
            self.has_cell(cell),
        ensures
            r == self.north(cell),
            r is Some ==> self.has_cell(r.unwrap()),
    {
        proof {
            assert(self.cell_ok(cell as int));
            lemma_neighbor_coords(self.rows(), self.cols(), cell as nat);
        }
        self.cells[cell].north
    }

    /// Gets the cell to the south, if any.
    pub fn south_of(&self, cell: Cell) -> (r: Option<Cell>)
        requires
            self.wf(),
            self.has_cell(cell),
        ensures
            r == self.south(cell),
            r is Some ==> self.has_cell(r.unwrap()),
    {
        proof {
            assert(self.cell_ok(cell as int));
            lemma_neighbor_coords(self.rows(), self.cols(), cell as nat);
        }
        self.cells[cell].south
    }

    /// Gets the cell to the east, if any.
    pub fn east_of(&self, cell: Cell) -> (r: Option<Cell>)
        requires
            self.wf(),
            self.has_cell(cell),
        ensures
            r == self.east(cell),
            r is Some ==> self.has_cell(r.unwrap()),
    {
        proof {
            assert(self.cell_ok(cell as int));
            lemma_neighbor_coords(self.rows(), self.cols(), cell as nat);
        }
        self.cells[cell].east
    }

    /// Gets the cell to the west, if any.
    pub fn west_of(&self, cell: Cell) -> (r: Option<Cell>)
        requires
            self.wf(),
            self.has_cell(cell),
        ensures
            r == self.west(cell),
            r is Some ==> self.has_cell(r.unwrap()),
    {
        proof {
            assert(self.cell_ok(cell as int));
            lemma_neighbor_coords(self.rows(), self.cols(), cell as nat);
        }
        self.cells[cell].west
    }

    /// Indicates whether this cell is linked to the cell to its north.
    /// Returns false if there is no cell to the north.
    pub fn is_linked_north(&self, cell: Cell) -> (r: bool)
        requires
            self.wf(),
            self.has_cell(cell),
        ensures
            r == self.open_north(cell),
    {
        proof {
            assert(self.cell_ok(cell as int));
        }
        if let Some(other) = self.cells[cell].north {
            position(&self.cells[cell].links, other).is_some()
        } else {
            false
        }
    }

    /// Indicates whether this cell is linked to the cell to its south.
    /// Returns false if there is no cell to the south.
    pub fn is_linked_south(&self, cell: Cell) -> (r: bool)
        requires
            self.wf(),
            self.has_cell(cell),
        ensures
            r == self.open_south(cell),
    {
        proof {
            assert(self.cell_ok(cell as int));
        }
        if let Some(other) = self.cells[cell].south {
            position(&self.cells[cell].links, other).is_some()
        } else {
            false
        }
    }

    /// Indicates whether this cell is linked to the cell to its east.
    /// Returns false if there is no cell to the east.
    pub fn is_linked_east(&self, cell: Cell) -> (r: bool)
        requires
            self.wf(),
            self.has_cell(cell),
        ensures
            r == self.open_east(cell),
    {
        proof {
            assert(self.cell_ok(cell as int));
        }
        if let Some(other) = self.cells[cell].east {
            position(&self.cells[cell].links, other).is_some()
        } else {
            false
        }
    }

    /// Indicates whether this cell is linked to the cell to its west.
    /// Returns false if there is no cell to the west.
    pub fn is_linked_west(&self, cell: Cell) -> (r: bool)
        requires
            self.wf(),
            self.has_cell(cell),
        ensures
            r == self.open_west(cell),
    {
        proof {
            assert(self.cell_ok(cell as int));
        }
        if let Some(other) = self.cells[cell].west {
            position(&self.cells[cell].links, other).is_some()
        } else {
            false
        }
    }

    /// Returns the grid to its initial state: no cell is linked to any other cell.
    pub fn clear(&mut self)
        requires
            old(self).wf(),
        ensures
            final(self).wf(),
            final(self).rows() == old(self).rows(),
            final(self).cols() == old(self).cols(),
            final(self).size() == old(self).size(),
            final(self).no_links(),
            forall|a: Cell, b: Cell| !final(self).linked(a, b),
    {
        let ghost before = *self;
        let mut c: usize = 0;
        while c < self.num_cells
            invariant
                c <= self.num_cells,
                self.num_rows == before.num_rows,
                self.num_cols == before.num_cols,
                self.num_cells == before.num_cells,
                self.cells@.len() == before.cells@.len(),
                before.wf(),
                forall|k: int| 0 <= k < c ==> (#[trigger] self.cells@[k]).links@.len() == 0,
                forall|k: int|
                    0 <= k < self.cells@.len() ==> {
                        let d = #[trigger] self.cells@[k];
                        let e = before.cells@[k];
                        d.cell == e.cell && d.north == e.north && d.south == e.south && d.east
                            == e.east && d.west == e.west
                    },
            decreases self.num_cells - c,
        {
            self.cells[c].links.clear();
            c += 1;
        }
        proof {
            assert forall|k: int| 0 <= k < self.cells@.len() implies #[trigger] self.cell_ok(
                k,
            ) by {
                assert(before.cell_ok(k));
                assert(self.cells@[k].links@.len() == 0);
            }
            assert forall|x: Cell| self.has_cell(x) implies #[trigger] self.link_list(x)
                == Seq::<Cell>::empty() by {
                assert(self.cells@[x as int].links@.len() == 0);
                assert(self.link_list(x) =~= Seq::<Cell>::empty());
            }
        }
    }
}

/// In a grid of `rows * cols` cells, the cell in row `i` and column `j` has an ID below
/// the number of cells, and dividing the ID by `cols` gives `i` and `j` back.
pub proof fn lemma_cell_bounds(rows: nat, cols: nat, i: nat, j: nat)
    requires
        i < rows,
        j < cols,
    ensures
        i * cols + j < rows * cols,
        i * cols <= i * cols + j,
        (i * cols + j) / cols == i,
        (i * cols + j) % cols == j,
{
    assert(i * cols + j < rows * cols) by (nonlinear_arith)
        requires
            i < rows,
            j < cols,
    ;
    vstd::arithmetic::div_mod::lemma_fundamental_div_mod_converse(
        (i * cols + j) as int,
        cols as int,
        i as int,
        j as int,
    );
    assert(cols * i == i * cols) by (nonlinear_arith);
}

/// In a grid of `rows * cols` cells, the row and column of a cell `c` are in range,
/// and `c` is the cell at that row and column.
pub proof fn lemma_coords_bounds(rows: nat, cols: nat, c: nat)
    requires
        c < rows * cols,
    ensures
        cols > 0,
        c / cols < rows,
        c % cols < cols,
        (c / cols) * cols + c % cols == c,
{
    assert(cols > 0) by (nonlinear_arith)
        requires
            c < rows * cols,
    ;
    vstd::arithmetic::div_mod::lemma_fundamental_div_mod(c as int, cols as int);
    assert(0 <= c / cols);
    assert(c % cols < cols);
    assert(cols * (c / cols) == (c / cols) * cols) by (nonlinear_arith);
    assert(c / cols < rows) by (nonlinear_arith)
        requires
            c < rows * cols,
            (c / cols) * cols + c % cols == c,
            0 <= c % cols,
            cols > 0,
    ;
}


/// Where the four neighbors of a cell `c` lie: each one that exists is a cell of
/// the grid, one row or one column away from `c`.
pub proof fn lemma_neighbor_coords(rows: nat, cols: nat, c: nat)
    requires
        c < rows * cols,
    ensures
        cols > 0,
        c / cols < rows,
        c % cols < cols,
        (c / cols) * cols + c % cols == c,
        c / cols == 0 ==> c % cols == c,
        c / cols > 0 ==> c >= cols && (c - cols) / (cols as int) == c / cols - 1 && (c - cols) % (
        cols as int) == c % cols,
        c / cols + 1 < rows ==> c + cols < rows * cols && (c + cols) / cols == c / cols + 1 && (c
            + cols) % cols == c % cols,
        c % cols + 1 < cols ==> c + 1 < rows * cols && (c + 1) / cols == c / cols && (c + 1) % cols
            == c % cols + 1,
        c % cols > 0 ==> c >= 1 && (c - 1) / (cols as int) == c / cols && (c - 1) % (cols as int)
            == c % cols - 1,
{
    lemma_coords_bounds(rows, cols, c);
    let i = c / cols;
    let j = c % cols;
    if i == 0 {
        assert(i * cols == 0) by (nonlinear_arith)
            requires
                i == 0,
        ;
    }
    if i > 0 {
        lemma_cell_bounds(rows, cols, (i - 1) as nat, j);
        assert((i - 1) * cols + j == c - cols) by (nonlinear_arith)
            requires
                i * cols + j == c,
        ;
    }
    if i + 1 < rows {
        lemma_cell_bounds(rows, cols, i + 1, j);
        assert((i + 1) * cols + j == c + cols) by (nonlinear_arith)
            requires
                i * cols + j == c,
        ;
    }
    if j + 1 < cols {
        lemma_cell_bounds(rows, cols, i, j + 1);
    }
    if j > 0 {
        lemma_cell_bounds(rows, cols, i, (j - 1) as nat);
    }
}


/// Appending a new cell keeps a link list duplicate-free, and the new list holds
/// what the old one held and the cell.
pub proof fn lemma_list_with(s: Seq<Cell>, x: Cell)
    requires
        s.no_duplicates(),
    ensures
        list_with(s, x).no_duplicates(),
        forall|y: Cell| list_with(s, x).contains(y) <==> (s.contains(y) || y == x),
{
    let t = list_with(s, x);
    if !s.contains(x) {
        assert(t[s.len() as int] == x);
        assert forall|y: Cell| t.contains(y) <==> (s.contains(y) || y == x) by {
            if s.contains(y) {
                let k = choose|k: int| 0 <= k < s.len() && s[k] == y;
                assert(t[k] == y);
            }
        }
    }
}

/// Taking a cell out keeps a link list duplicate-free, and the new list holds
/// what the old one held but the cell.
pub proof fn lemma_list_without(s: Seq<Cell>, x: Cell)
    requires
        s.no_duplicates(),
    ensures
        list_without(s, x).no_duplicates(),
        forall|y: Cell| list_without(s, x).contains(y) <==> (s.contains(y) && y != x),
{
    let t = list_without(s, x);
    if s.contains(x) {
        s.index_of_first_ensures(x);
        let i = s.index_of(x);
        assert(0 <= i < s.len() && s[i] == x);
        assert forall|y: Cell| t.contains(y) <==> (s.contains(y) && y != x) by {
            if s.contains(y) && y != x {
                let k = choose|k: int| 0 <= k < s.len() && s[k] == y;
                if k < i {
                    assert(t[k] == y);
                } else {
                    assert(t[k - 1] == y);
                }
            }
            if t.contains(y) {
                let k = choose|k: int| 0 <= k < t.len() && t[k] == y;
                if k < i {
                    assert(s[k] == y);
                } else {
                    assert(s[k + 1] == y);
                }
            }
        }
    }
}

} // verus!
