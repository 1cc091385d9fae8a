//! Spanning trees: what it means for the links of a grid to form a perfect maze.

use vstd::prelude::*;
use crate::grid::Cell;
use crate::grid::Grid;

verus! {

impl Grid {
    /// The links of the grid, each once, as the pair of its lower and higher cell.
    pub open spec fn edges(&self) -> Set<(Cell, Cell)> {
        Set::new(|e: (Cell, Cell)| e.0 < e.1 && self.linked(e.0, e.1))
    }

    /// Whether every cell is reachable from every other.
    pub open spec fn is_connected(&self) -> bool {
        forall|a: Cell, b: Cell|
            self.has_cell(a) && self.has_cell(b) ==> #[trigger] self.reachable(a, b)
    }

    /// Whether every link joins two geometric neighbors.
    pub open spec fn links_adjacent(&self) -> bool {
        forall|a: Cell, b: Cell| #[trigger] self.linked(a, b) ==> self.adjacent(a, b)
    }

    /// Whether the links form a spanning tree: one link fewer than there are
    /// cells, and every cell reachable from every other.
    pub open spec fn is_spanning_tree(&self) -> bool {
        &&& self.edges().finite()
        &&& self.edges().len() + 1 == self.size()
        &&& self.is_connected()
    }

    /// Whether the grid is a perfect maze: a spanning tree whose links join
    /// geometric neighbors. A grid without cells counts as one.
    pub open spec fn is_perfect_maze(&self) -> bool {
        &&& self.links_adjacent()
        &&& self.size() > 0 ==> self.is_spanning_tree()
    }

    /// A grid in which nothing is linked has no links to count.
    pub proof fn lemma_no_edges(&self)
        requires
            forall|a: Cell, b: Cell| !self.linked(a, b),
        ensures
            self.edges() == Set::<(Cell, Cell)>::empty(),
            self.edges().finite(),
            self.edges().len() == 0,
    {
        assert(self.edges() =~= Set::<(Cell, Cell)>::empty());
    }

    /// A link between two cells that were not linked is one link more.
    pub proof fn lemma_edges_after_link(&self, after: &Grid, a: Cell, b: Cell)
        requires
            self.wf(),
            self.edges().finite(),
            a != b,
            !self.linked(a, b),
            forall|x: Cell, y: Cell| #[trigger]
                after.linked(x, y) <==> (self.linked(x, y) || (x == a && y == b) || (x == b && y
                    == a)),
        ensures
            after.edges().finite(),
            after.edges().len() == self.edges().len() + 1,
    {
        self.lemma_wf();
        let e = if a < b {
            (a, b)
        } else {
            (b, a)
        };
        assert(!self.linked(e.0, e.1)) by {
            if self.linked(b, a) {
                assert(self.linked(a, b));
            }
        }
        assert(after.edges() =~= self.edges().insert(e)) by {
            assert forall|p: (Cell, Cell)| after.edges().contains(p) <==> self.edges().insert(
                e,
            ).contains(p) by {
                if p.0 < p.1 {
                    assert(after.linked(p.0, p.1) <==> (self.linked(p.0, p.1) || (p.0 == a && p.1
                        == b) || (p.0 == b && p.1 == a)));
                }
            }
        }
    }

    /// Where the links only grow, what was reachable stays reachable.
    pub proof fn lemma_reachable_monotone(&self, after: &Grid, a: Cell, b: Cell)
        requires
            self.size() == after.size(),
            forall|x: Cell, y: Cell| #[trigger] self.linked(x, y) ==> after.linked(x, y),
            self.reachable(a, b),
        ensures
            after.reachable(a, b),
    {
        let p = choose|p: Seq<Cell>| self.walk_between(p, a, b);
        assert forall|k: int| 0 <= k < p.len() - 1 implies after.linked(#[trigger] p[k], p[k + 1]) by {
            assert(self.linked(p[k], p[k + 1]));
        }
        assert forall|k: int| 0 <= k < p.len() implies after.has_cell(#[trigger] p[k]) by {
            assert(self.has_cell(p[k]));
        }
        assert(after.walk_between(p, a, b));
    }

    /// Where every cell reaches one cell, every cell reaches every other.
    pub proof fn lemma_connected_through(&self, hub: Cell)
        requires
            self.wf(),
            forall|c: Cell| self.has_cell(c) ==> #[trigger] self.reachable(c, hub),
        ensures
            self.is_connected(),
    {
        assert forall|a: Cell, b: Cell| self.has_cell(a) && self.has_cell(b) implies #[trigger] self.reachable(
            a,
            b,
        ) by {
            assert(self.reachable(a, hub));
            assert(self.reachable(b, hub));
            self.lemma_reachable_symmetric(b, hub);
            self.lemma_reachable_transitive(a, hub, b);
        }
    }

    /// Whether the links form a tree over the cells in `t`: they join adjacent
    /// cells of `t`, there is one link fewer than `t` has cells, and every cell of
    /// `t` is reachable from `root`.
    pub open spec fn is_partial_tree(&self, t: Set<int>, root: Cell) -> bool {
        &&& t.finite()
        &&& t.contains(root as int)
        &&& forall|c: int| t.contains(c) ==> 0 <= c < self.size()
        &&& self.edges().finite()
        &&& self.edges().len() + 1 == t.len()
        &&& forall|a: Cell, b: Cell| #[trigger]
            self.linked(a, b) ==> t.contains(a as int) && t.contains(b as int) && self.adjacent(
                a,
                b,
            )
        &&& forall|c: Cell| t.contains(c as int) ==> #[trigger] self.reachable(root, c)
    }

    /// A single cell without links is a tree.
    pub proof fn lemma_tree_seed(&self, root: Cell)
        requires
            self.wf(),
            self.has_cell(root),
            forall|a: Cell, b: Cell| !self.linked(a, b),
        ensures
            self.is_partial_tree(set![root as int], root),
    {
        self.lemma_no_edges();
        self.lemma_reachable_step(root, root);
        let t = set![root as int];
        assert(t.len() == 1) by {
            assert(t =~= Set::<int>::empty().insert(root as int));
        }
    }

    /// A tree grows by a link from one of its cells to an adjacent cell outside it.
    pub proof fn lemma_tree_grows(&self, after: &Grid, t: Set<int>, root: Cell, x: Cell, y: Cell)
        requires
            self.wf(),
            after.wf(),
            self.rows() == after.rows(),
            self.cols() == after.cols(),
            self.size() == after.size(),
            self.is_partial_tree(t, root),
            t.contains(x as int),
            self.has_cell(y),
            !t.contains(y as int),
            self.adjacent(x, y),
            forall|a: Cell, b: Cell| #[trigger]
                after.linked(a, b) <==> (self.linked(a, b) || (a == x && b == y) || (a == y && b
                    == x)),
        ensures
            after.is_partial_tree(t.insert(y as int), root),
    {
        self.lemma_wf();
        after.lemma_wf();
        let u = t.insert(y as int);
        assert(!self.linked(x, y));
        self.lemma_edges_after_link(after, x, y);
        self.lemma_adjacent_symmetric(x, y);
        assert forall|a: Cell, b: Cell| #[trigger] after.linked(a, b) implies u.contains(a as int)
            && u.contains(b as int) && after.adjacent(a, b) by {
            if self.linked(a, b) {
                assert(self.adjacent(a, b));
            }
        }
        assert forall|c: Cell| u.contains(c as int) implies #[trigger] after.reachable(root, c) by {
            if c == y {
                assert(self.reachable(root, x));
                self.lemma_reachable_monotone(after, root, x);
                after.lemma_reachable_step(x, y);
                after.lemma_reachable_transitive(root, x, y);
            } else {
                assert(self.reachable(root, c));
                self.lemma_reachable_monotone(after, root, c);
            }
        }
    }

    /// A tree has no more cells than the grid.
    pub proof fn lemma_tree_size(&self, t: Set<int>, root: Cell)
        requires
            self.is_partial_tree(t, root),
        ensures
            t.len() <= self.size(),
    {
        vstd::set_lib::lemma_int_range(0, self.size() as int);
        vstd::set_lib::lemma_len_subset(t, vstd::set_lib::set_int_range(0, self.size() as int));
    }

    /// A tree over all the cells of the grid makes the grid a perfect maze.
    pub proof fn lemma_tree_spans(&self, t: Set<int>, root: Cell)
        requires
            self.wf(),
            self.is_partial_tree(t, root),
            forall|c: Cell| self.has_cell(c) ==> t.contains(c as int),
        ensures
            self.is_perfect_maze(),
            self.is_spanning_tree(),
    {
        self.lemma_wf();
        vstd::set_lib::lemma_int_range(0, self.size() as int);
        assert(t =~= vstd::set_lib::set_int_range(0, self.size() as int)) by {
            assert forall|c: int| 0 <= c < self.size() implies t.contains(c) by {
                assert(self.has_cell(c as usize));
            }
        }
        assert forall|c: Cell| self.has_cell(c) implies #[trigger] self.reachable(c, root) by {
            assert(self.reachable(root, c));
            self.lemma_reachable_symmetric(root, c);
        }
        self.lemma_connected_through(root);
    }

    /// Within a row, a set of cells that is closed under adjacency and holds one
    /// cell of the row holds every cell of the row.
    proof fn lemma_sweep_row(&self, t: Set<int>, i: nat, from: nat, to: nat)
        requires
            self.wf(),
            i < self.rows(),
            from < self.cols(),
            to < self.cols(),
            t.contains(self.cell_at(i, from) as int),
            forall|a: Cell, b: Cell|
                self.has_cell(a) && t.contains(a as int) && #[trigger] self.adjacent(a, b)
                    ==> t.contains(b as int),
        ensures
            t.contains(self.cell_at(i, to) as int),
        decreases
                (if to >= from {
                    to - from
                } else {
                    from - to
                }),
    {
        self.lemma_wf();
        if to > from {
            let prev = (to - 1) as nat;
            self.lemma_sweep_row(t, i, from, prev);
            crate::grid::lemma_cell_bounds(self.rows(), self.cols(), i, prev);
            let a = self.cell_at(i, prev) as usize;
            let b = self.cell_at(i, to) as usize;
            assert(self.east(a) == Some(b));
            assert(self.adjacent(a, b));
        } else if to < from {
            let prev = to + 1;
            self.lemma_sweep_row(t, i, from, prev);
            crate::grid::lemma_cell_bounds(self.rows(), self.cols(), i, prev);
            let a = self.cell_at(i, prev) as usize;
            let b = self.cell_at(i, to) as usize;
            assert(self.west(a) == Some(b));
            assert(self.adjacent(a, b));
        }
    }

    /// Within a column, a set of cells that is closed under adjacency and holds
    /// one cell of the column holds every cell of the column.
    proof fn lemma_sweep_col(&self, t: Set<int>, j: nat, from: nat, to: nat)
        requires
            self.wf(),
            j < self.cols(),
            from < self.rows(),
            to < self.rows(),
            t.contains(self.cell_at(from, j) as int),
            forall|a: Cell, b: Cell|
                self.has_cell(a) && t.contains(a as int) && #[trigger] self.adjacent(a, b)
                    ==> t.contains(b as int),
        ensures
            t.contains(self.cell_at(to, j) as int),
        decreases
                (if to >= from {
                    to - from
                } else {
                    from - to
                }),
    {
        self.lemma_wf();
        let cols = self.cols();
        if to > from {
            let prev = (to - 1) as nat;
            self.lemma_sweep_col(t, j, from, prev);
            crate::grid::lemma_cell_bounds(self.rows(), cols, prev, j);
            crate::grid::lemma_cell_bounds(self.rows(), cols, to, j);
            let a = self.cell_at(prev, j) as usize;
            let b = self.cell_at(to, j) as usize;
            assert(prev * cols + j + cols == to * cols + j) by (nonlinear_arith)
                requires
                    prev + 1 == to,
            ;
            assert(self.south(a) == Some(b));
            assert(self.adjacent(a, b));
        } else if to < from {
            let prev = to + 1;
            self.lemma_sweep_col(t, j, from, prev);
            crate::grid::lemma_cell_bounds(self.rows(), cols, prev, j);
            crate::grid::lemma_cell_bounds(self.rows(), cols, to, j);
            let a = self.cell_at(prev, j) as usize;
            let b = self.cell_at(to, j) as usize;
            assert(prev * cols + j - cols == to * cols + j) by (nonlinear_arith)
                requires
                    prev == to + 1,
            ;
            assert(self.north(a) == Some(b));
            assert(self.adjacent(a, b));
        }
    }

    /// The cells of a grid hang together: a set of cells that is closed under
    /// adjacency and holds one cell holds them all.
    pub proof fn lemma_closed_set_is_everything(&self, t: Set<int>, seed: Cell)
        requires
            self.wf(),
            self.has_cell(seed),
            t.contains(seed as int),
            forall|a: Cell, b: Cell|
                self.has_cell(a) && t.contains(a as int) && #[trigger] self.adjacent(a, b)
                    ==> t.contains(b as int),
        ensures
            forall|c: Cell| self.has_cell(c) ==> t.contains(c as int),
    {
        self.lemma_wf();
        assert forall|c: Cell| self.has_cell(c) implies t.contains(c as int) by {
            self.lemma_coords_roundtrip(seed);
            self.lemma_coords_roundtrip(c);
            self.lemma_sweep_row(t, self.row_of(seed), self.col_of(seed), self.col_of(c));
            self.lemma_sweep_col(t, self.col_of(c), self.row_of(seed), self.row_of(c));
        }
    }

    /// A cell without neighbors is the only cell of its grid.
    pub proof fn lemma_lonely_cell(&self, c: Cell)
        requires
            self.wf(),
            self.has_cell(c),
            forall|x: Cell| !self.adjacent(c, x),
        ensures
            self.size() == 1,
    {
        self.lemma_wf();
        crate::grid::lemma_neighbor_coords(self.rows(), self.cols(), c as nat);
        let rows = self.rows();
        let cols = self.cols();
        if self.north(c) is Some {
            assert(self.adjacent(c, self.north(c).unwrap()));
        }
        if self.south(c) is Some {
            assert(self.adjacent(c, self.south(c).unwrap()));
        }
        if self.east(c) is Some {
            assert(self.adjacent(c, self.east(c).unwrap()));
        }
        if self.west(c) is Some {
            assert(self.adjacent(c, self.west(c).unwrap()));
        }
        assert(rows == 1 && cols == 1);
        assert(rows * cols == 1) by (nonlinear_arith)
            requires
                rows == 1,
                cols == 1,
        ;
    }
}

} // verus!
