//! A mask over the cells of a grid: a flag per cell that says whether the cell
//! is alive. Masks define irregular mazes.

use vstd::prelude::*;
use rand::rngs::StdRng;
use crate::grid::Cell;
use crate::grid::lemma_cell_bounds;
use crate::grid::lemma_coords_bounds;
use crate::random::sample_index;

verus! {

/// The mathematical content of a mask: its dimensions and the flag of each cell,
/// by cell ID.
pub struct MaskModel {
    pub rows: nat,
    pub cols: nat,
    pub alive: Seq<bool>,
}

/// The IDs of the cells that are alive.
pub open spec fn live_set(alive: Seq<bool>) -> Set<int> {
    Set::new(|c: int| 0 <= c < alive.len() && alive[c])
}

proof fn lemma_live_set_finite(alive: Seq<bool>)
    ensures
        live_set(alive).finite(),
        live_set(alive).len() <= alive.len(),
{
    vstd::set_lib::lemma_int_range(0, alive.len() as int);
    vstd::set_lib::lemma_len_subset(
        live_set(alive),
        vstd::set_lib::set_int_range(0, alive.len() as int),
    );
}

/// The live cells among the first `k + 1` are those among the first `k`, and
/// cell `k` if it is alive.
proof fn lemma_live_set_step(alive: Seq<bool>, k: int)
    requires
        0 <= k < alive.len(),
    ensures
        live_set(alive.subrange(0, k + 1)).len() == live_set(alive.subrange(0, k)).len() + (if alive[k] {
            1int
        } else {
            0int
        }),
{
    let s = alive.subrange(0, k);
    let t = alive.subrange(0, k + 1);
    lemma_live_set_finite(s);
    if alive[k] {
        assert(live_set(t) =~= live_set(s).insert(k));
    } else {
        assert(live_set(t) =~= live_set(s));
    }
}

/// A name for a cell of a mask: its ID, or its `(row, column)` pair.
pub trait MaskCell {
    /// Whether this names a cell of a mask with the given dimensions.
    spec fn within(self, rows: nat, cols: nat) -> bool;

    /// The ID of the cell named, in a mask with `cols` columns.
    spec fn id(self, cols: nat) -> nat;

    /// The ID of the cell named, or `None` where this names no cell of a mask
    /// with the given dimensions.
    fn locate(self, rows: usize, cols: usize) -> (r: Option<Cell>)
        requires
            rows * cols <= usize::MAX,
        ensures
            r is Some == self.within(rows as nat, cols as nat),
            r is Some ==> r.unwrap() == self.id(cols as nat) && r.unwrap() < rows * cols,
    ;
}

impl MaskCell for Cell {
    open spec fn within(self, rows: nat, cols: nat) -> bool {
        self < rows * cols
    }

    open spec fn id(self, cols: nat) -> nat {
        self as nat
    }

    fn locate(self, rows: usize, cols: usize) -> (r: Option<Cell>) {
        if self < rows * cols {
            Some(self)
        } else {
            None
        }
    }
}

impl MaskCell for (usize, usize) {
    open spec fn within(self, rows: nat, cols: nat) -> bool {
        self.0 < rows && self.1 < cols
    }

    open spec fn id(self, cols: nat) -> nat {
        (self.0 * cols + self.1) as nat
    }

    fn locate(self, rows: usize, cols: usize) -> (r: Option<Cell>) {
        if self.0 < rows && self.1 < cols {
            proof {
                lemma_cell_bounds(rows as nat, cols as nat, self.0 as nat, self.1 as nat);
            }
            Some(self.0 * cols + self.1)
        } else {
            None
        }
    }
}

/// A rectangular mask of flags, one per cell, all set at first. A cell is named
/// by its ID or by its `(row, column)` pair; its ID is `row * cols + column`.
#[derive(Debug, PartialEq, Eq, Clone)]
pub struct Mask {
    num_rows: usize,
    num_cols: usize,
    num_cells: usize,
    cells: Vec<bool>,
}

impl View for Mask {
    type V = MaskModel;

    closed spec fn view(&self) -> MaskModel {
        MaskModel { rows: self.num_rows as nat, cols: self.num_cols as nat, alive: self.cells@ }
    }
}

impl Mask {
    /// The number of rows.
    pub open spec fn rows(&self) -> nat {
        self@.rows
    }

    /// The number of columns.
    pub open spec fn cols(&self) -> nat {
        self@.cols
    }

    /// The flags, by cell ID.
    pub open spec fn alive(&self) -> Seq<bool> {
        self@.alive
    }

    /// The ID of the cell in row `i` and column `j`.
    pub open spec fn cell_at(&self, i: nat, j: nat) -> nat {
        i * self.cols() + j
    }

    /// Whether the pair names a cell of the mask.
    pub open spec fn has(&self, ij: (usize, usize)) -> bool {
        ij.0 < self.rows() && ij.1 < self.cols()
    }

    /// Whether the cell that the pair names is alive.
    pub open spec fn lives(&self, ij: (usize, usize)) -> bool {
        self.has(ij) && self.alive()[self.cell_at(ij.0 as nat, ij.1 as nat) as int]
    }

    /// The invariant of a mask: it has one flag for each of its `rows * cols` cells.
    pub closed spec fn wf(&self) -> bool {
        &&& self.num_cells == self.num_rows * self.num_cols
        &&& self.cells@.len() == self.num_cells
    }

    /// What the invariant says of the number of flags.
    pub proof fn lemma_wf(&self)
        requires
            self.wf(),
        ensures
            self.alive().len() == self.rows() * self.cols(),
            self.alive().len() <= usize::MAX,
    {
    }

    /// Creates a new mask, with all cells alive.
    pub fn new(num_rows: usize, num_cols: usize) -> (mask: Self)
        requires
            num_rows * num_cols <= usize::MAX,
        ensures
            mask.wf(),
            mask.rows() == num_rows,
            mask.cols() == num_cols,
            mask.alive().len() == num_rows * num_cols,
            forall|c: int| 0 <= c < mask.alive().len() ==> mask.alive()[c],
    {
        let num_cells = num_rows * num_cols;
        let mut cells: Vec<bool> = Vec::with_capacity(num_cells);
        let mut k: usize = 0;
        while k < num_cells
            invariant
                k <= num_cells,
                cells@.len() == k,
                forall|c: int| 0 <= c < k ==> cells@[c],
            decreases num_cells - k,
        {
            cells.push(true);
            k += 1;
        }
        Self { num_rows, num_cols, num_cells, cells }
    }

    /// The number of rows in the mask.
    pub fn num_rows(&self) -> (r: usize)
        ensures
            r == self.rows(),
    {
        self.num_rows
    }

    /// The number of columns in the mask.
    pub fn num_cols(&self) -> (r: usize)
        ensures
            r == self.cols(),
    {
        self.num_cols
    }

    /// The number of cells in the mask.
    pub fn num_cells(&self) -> (r: usize)
        requires
            self.wf(),
        ensures
            r == self.alive().len(),
            r == self.rows() * self.cols(),
    {
        self.num_cells
    }

    /// Computes the cell ID from the row and column.
    pub fn cell(&self, ij: (usize, usize)) -> (r: Cell)
        requires
            self.wf(),
            self.has(ij),
        ensures
            r == self.cell_at(ij.0 as nat, ij.1 as nat),
            r < self.alive().len(),
    {
        proof {
            lemma_cell_bounds(self.rows(), self.cols(), ij.0 as nat, ij.1 as nat);
        }
        ij.0 * self.num_cols + ij.1
    }

    /// Computes the row and column from the cell ID.
    pub fn ij(&self, cell: Cell) -> (r: (usize, usize))
        requires
            self.wf(),
            cell < self.alive().len(),
        ensures
            self.has(r),
            self.cell_at(r.0 as nat, r.1 as nat) == cell,
            r.0 == cell as nat / self.cols(),
            r.1 == cell as nat % self.cols(),
    {
        proof {
            lemma_coords_bounds(self.rows(), self.cols(), cell as nat);
        }
        (cell / self.num_cols, cell % self.num_cols)
    }

    /// Whether `at` names a cell that is alive.
    pub open spec fn lives_at<P: MaskCell>(&self, at: P) -> bool {
        at.within(self.rows(), self.cols()) && self.alive()[at.id(self.cols()) as int]
    }

    /// Does the mask contain the location?
    pub fn contains<P: MaskCell>(&self, at: P) -> (r: bool)
        requires
            self.wf(),
        ensures
            r == at.within(self.rows(), self.cols()),
    {
        at.locate(self.num_rows, self.num_cols).is_some()
    }

    /// Sets the cell's alive/dead flag.
    pub fn set<P: MaskCell>(&mut self, at: P, flag: bool)
        requires
            old(self).wf(),
            at.within(old(self).rows(), old(self).cols()),
        ensures
            final(self).wf(),
            final(self).rows() == old(self).rows(),
            final(self).cols() == old(self).cols(),
            final(self).alive() == old(self).alive().update(at.id(old(self).cols()) as int, flag),
            final(self).lives_at(at) == flag,
    {
        match at.locate(self.num_rows, self.num_cols) {
            Some(cell) => {
                self.cells[cell] = flag;
            },
            None => {},
        }
    }

    /// Marks the cell as dead.
    pub fn kill<P: MaskCell>(&mut self, at: P)
        requires
            old(self).wf(),
            at.within(old(self).rows(), old(self).cols()),
        ensures
            final(self).wf(),
            final(self).rows() == old(self).rows(),
            final(self).cols() == old(self).cols(),
            final(self).alive() == old(self).alive().update(at.id(old(self).cols()) as int, false),
            !final(self).lives_at(at),
    {
        self.set(at, false);
    }

    /// Returns true if the cell is alive, and false otherwise.
    pub fn is_alive<P: MaskCell>(&self, at: P) -> (r: bool)
        requires
            self.wf(),
            at.within(self.rows(), self.cols()),
        ensures
            r == self.lives_at(at),
    {
        match at.locate(self.num_rows, self.num_cols) {
            Some(cell) => self.cells[cell],
            None => false,
        }
    }

    /// Returns the number of cells that are alive.
    pub fn live_count(&self) -> (r: usize)
        requires
            self.wf(),
        ensures
            r == live_set(self.alive()).len(),
    {
        let mut count: usize = 0;
        let mut k: usize = 0;
        proof {
            lemma_live_set_finite(self.cells@.subrange(0, 0));
        }
        while k < self.cells.len()
            invariant
                k <= self.cells@.len(),
                count == live_set(self.cells@.subrange(0, k as int)).len(),
                count <= k,
            decreases self.cells@.len() - k,
        {
            proof {
                lemma_live_set_step(self.cells@, k as int);
            }
            if self.cells[k] {
                count += 1;
            }
            k += 1;
        }
        proof {
            assert(self.cells@.subrange(0, k as int) =~= self.cells@);
        }
        count
    }

    /// Returns the live cells of the mask, in ascending order of their IDs.
    pub fn live_cells(&self) -> (r: Vec<(usize, usize)>)
        requires
            self.wf(),
        ensures
            r@.len() == live_set(self.alive()).len(),
            forall|k: int| 0 <= k < r@.len() ==> self.lives(#[trigger] r@[k]),
            forall|k: int, m: int|
                0 <= k < m < r@.len() ==> self.cell_at(r@[k].0 as nat, r@[k].1 as nat)
                    < self.cell_at(r@[m].0 as nat, r@[m].1 as nat),
            forall|ij: (usize, usize)| self.lives(ij) ==> r@.contains(ij),
    {
        let mut r: Vec<(usize, usize)> = Vec::new();
        let mut c: usize = 0;
        proof {
            lemma_live_set_finite(self.cells@.subrange(0, 0));
        }
        while c < self.cells.len()
            invariant
                self.wf(),
                c <= self.cells@.len(),
                r@.len() == live_set(self.cells@.subrange(0, c as int)).len(),
                forall|k: int| 0 <= k < r@.len() ==> self.lives(#[trigger] r@[k]),
                forall|k: int|
                    0 <= k < r@.len() ==> self.cell_at(
                        (#[trigger] r@[k]).0 as nat,
                        r@[k].1 as nat,
                    ) < c,
                forall|k: int, m: int|
                    0 <= k < m < r@.len() ==> self.cell_at(r@[k].0 as nat, r@[k].1 as nat)
                        < self.cell_at(r@[m].0 as nat, r@[m].1 as nat),
                forall|ij: (usize, usize)|
                    self.lives(ij) && self.cell_at(ij.0 as nat, ij.1 as nat) < c ==> r@.contains(
                        ij,
                    ),
            decreases self.cells@.len() - c,
        {
            proof {
                lemma_live_set_step(self.cells@, c as int);
            }
            if self.cells[c] {
                let ij = self.ij(c);
                let ghost before = r@;
                r.push(ij);
                proof {
                    assert(r@[before.len() as int] == ij);
                    assert forall|p: (usize, usize)|
                        self.lives(p) && self.cell_at(p.0 as nat, p.1 as nat) < c
                            + 1 implies r@.contains(p) by {
                        if self.cell_at(p.0 as nat, p.1 as nat) < c {
                            assert(before.contains(p));
                            let k = choose|k: int| 0 <= k < before.len() && before[k] == p;
                            assert(r@[k] == p);
                        } else {
                            lemma_cell_bounds(self.rows(), self.cols(), p.0 as nat, p.1 as nat);
                            assert(p == ij);
                        }
                    }
                }
            }
            c += 1;
        }
        proof {
            assert(self.cells@.subrange(0, c as int) =~= self.cells@);
            assert forall|ij: (usize, usize)| self.lives(ij) implies r@.contains(ij) by {
                lemma_cell_bounds(self.rows(), self.cols(), ij.0 as nat, ij.1 as nat);
            }
        }
        r
    }

    /// Returns a random live cell, each as likely as any other. Only returns
    /// `None` if there are no live cells.
    pub fn random_cell(&self, rng: &mut StdRng) -> (r: Option<(usize, usize)>)
        requires
            self.wf(),
        ensures
            r is None <==> live_set(self.alive()).len() == 0,
            r is Some ==> self.lives(r.unwrap()),
    {
        let live_cells = self.live_cells();
        if live_cells.len() > 0 {
            let ind = sample_index(rng, live_cells.len());
            Some(live_cells[ind])
        } else {
            None
        }
    }
}


impl vstd::std_specs::core::IndexSpecImpl<(usize, usize)> for Mask {
    open spec fn index_req(&self, index: &(usize, usize)) -> bool {
        self.wf() && self.has(*index)
    }
}

impl std::ops::Index<(usize, usize)> for Mask {
    type Output = bool;

    /// The flag of the cell.
    fn index(&self, idx: (usize, usize)) -> (r: &bool)
        ensures
            *r == self.lives(idx),
    {
        let cell = self.cell(idx);
        &self.cells[cell]
    }
}

impl std::ops::IndexMut<(usize, usize)> for Mask {
    /// The flag of the cell, to be changed.
    fn index_mut(&mut self, idx: (usize, usize)) -> (r: &mut bool)
        requires
            old(self).wf(),
            old(self).has(idx),
        ensures
            *r == old(self).lives(idx),
            final(self).wf(),
            final(self).rows() == old(self).rows(),
            final(self).cols() == old(self).cols(),
            final(self).alive() == old(self).alive().update(
                old(self).cell_at(idx.0 as nat, idx.1 as nat) as int,
                *final(r),
            ),
    {
        let cell = self.cell(idx);
        &mut self.cells[cell]
    }
}

} // verus!
