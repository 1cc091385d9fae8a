//! Maze generators. Each one clears the grid and then links cells until the
//! links form a perfect maze, drawing its choices from the given generator.

use vstd::prelude::*;
use rand::rngs::StdRng;
use crate::grid::Cell;
use crate::grid::Grid;
use crate::random::flip;
use crate::random::random_below;
use crate::random::sample;

verus! {

/// The links of a binary-tree maze after the cells below `bound` have made their
/// choice: every link leads east from a cell below `bound`, or north from one.
pub open spec fn binary_links(g: &Grid, bound: int) -> bool {
    &&& forall|a: Cell| !#[trigger] g.linked(a, a)
    &&& forall|a: Cell, b: Cell| #[trigger]
        g.linked(a, b) && a < b ==> (g.east(a) == Some(b) && a < bound) || (g.north(b) == Some(a)
            && b < bound)
}

/// Whether cell `x` is linked to its northern or to its eastern neighbor, and
/// not to both, unless it has neither.
pub open spec fn binary_choice_made(g: &Grid, x: Cell) -> bool {
    ||| (g.north(x) is None && g.east(x) is None)
    ||| (g.open_north(x) && !g.open_east(x))
    ||| (g.open_east(x) && !g.open_north(x))
}

/// Whether every cell below `bound` has made its choice.
pub open spec fn binary_choices_made(g: &Grid, bound: int) -> bool {
    forall|x: Cell| x < bound && g.has_cell(x) ==> #[trigger] binary_choice_made(g, x)
}

/// In a grid where every cell is linked north or east, every cell reaches the
/// cell in the north-east corner.
proof fn lemma_binary_reaches_corner(g: &Grid, x: Cell)
    requires
        g.wf(),
        g.has_cell(x),
        binary_choices_made(g, g.size() as int),
    ensures
        g.reachable(x, (g.cols() - 1) as usize),
    decreases g.row_of(x) + g.cols() - g.col_of(x),
{
    g.lemma_wf();
    crate::grid::lemma_neighbor_coords(g.rows(), g.cols(), x as nat);
    assert(binary_choice_made(g, x));
    let corner = (g.cols() - 1) as usize;
    if g.north(x) is None && g.east(x) is None {
        assert(x == corner);
        g.lemma_reachable_step(x, x);
    } else {
        let y = if g.open_north(x) {
            g.north(x).unwrap()
        } else {
            g.east(x).unwrap()
        };
        assert(g.linked(x, y));
        g.lemma_reachable_step(x, y);
        lemma_binary_reaches_corner(g, y);
        g.lemma_reachable_transitive(x, y, corner);
    }
}

/// Produces a binary-tree maze: every cell, in ascending order, is linked to its
/// northern or its eastern neighbor, chosen at random where it has both. The cell
/// in the north-east corner has neither and makes no link of its own.
pub fn binary_tree_maze(grid: &mut Grid, rng: &mut StdRng)
    requires
        old(grid).wf(),
    ensures
        final(grid).wf(),
        final(grid).rows() == old(grid).rows(),
        final(grid).cols() == old(grid).cols(),
        final(grid).size() == old(grid).size(),
        final(grid).is_perfect_maze(),
        binary_links(final(grid), final(grid).size() as int),
        binary_choices_made(final(grid), final(grid).size() as int),
{
    grid.clear();
    let n = grid.num_cells();
    let ghost rows = grid.rows();
    let ghost cols = grid.cols();
    proof {
        grid.lemma_no_edges();
        grid.lemma_wf();
    }
    let mut cell: usize = 0;
    while cell < n
        invariant
            grid.wf(),
            grid.rows() == rows,
            grid.cols() == cols,
            n == grid.size(),
            n == rows * cols,
            cell <= n,
            grid.edges().finite(),
            grid.edges().len() == (if cell >= cols && cell > 0 {
                cell - 1
            } else {
                cell as int
            }),
            binary_links(grid, cell as int),
            binary_choices_made(grid, cell as int),
        decreases n - cell,
    {
        let mut neighbors: Vec<Cell> = Vec::new();
        if let Some(ncell) = grid.north_of(cell) {
            neighbors.push(ncell);
        }
        if let Some(ecell) = grid.east_of(cell) {
            neighbors.push(ecell);
        }
        proof {
            crate::grid::lemma_neighbor_coords(rows, cols, cell as nat);
        }
        if neighbors.len() > 0 {
            let chosen = sample(rng, neighbors.as_slice());
            let ghost before = *grid;
            proof {
                before.lemma_wf();
                let k = choose|k: int| 0 <= k < neighbors@.len() && neighbors@[k] == chosen;
                assert(before.north(cell) == Some(chosen) || before.east(cell) == Some(chosen));
                if cell < chosen {
                    assert(!before.linked(cell, chosen));
                } else {
                    assert(!before.linked(chosen, cell));
                }
            }
            grid.link(cell, chosen);
            proof {
                before.lemma_edges_after_link(grid, cell, chosen);
                assert forall|x: Cell| x < cell + 1 && grid.has_cell(x) implies #[trigger] binary_choice_made(
                    grid,
                    x,
                ) by {
                    crate::grid::lemma_neighbor_coords(rows, cols, x as nat);
                    if x < cell {
                        assert(binary_choice_made(&before, x));
                        assert(grid.open_north(x) == before.open_north(x));
                        assert(grid.open_east(x) == before.open_east(x));
                    } else {
                        assert(grid.linked(cell, chosen));
                        assert(!before.open_north(x));
                        assert(!before.open_east(x));
                    }
                }
                assert(binary_links(grid, cell + 1)) by {
                    assert forall|a: Cell| !#[trigger] grid.linked(a, a) by {
                        assert(!before.linked(a, a));
                    }
                    assert forall|a: Cell, b: Cell| #[trigger]
                        grid.linked(a, b) && a < b implies (grid.east(a) == Some(b) && a < cell + 1)
                        || (grid.north(b) == Some(a) && b < cell + 1) by {
                        if !before.linked(a, b) {
                            assert((a == cell && b == chosen) || (a == chosen && b == cell));
                        }
                    }
                }
            }
        } else {
            proof {
                assert(cell == cols - 1);
                assert forall|x: Cell| x < cell + 1 && grid.has_cell(x) implies #[trigger] binary_choice_made(
                    grid,
                    x,
                ) by {
                    if x < cell {
                        assert(binary_choice_made(grid, x));
                    }
                }
            }
        }
        cell += 1;
    }
    proof {
        grid.lemma_wf();
        assert(grid.links_adjacent()) by {
            assert forall|a: Cell, b: Cell| #[trigger] grid.linked(a, b) implies grid.adjacent(
                a,
                b,
            ) by {
                assert(grid.linked(b, a));
                grid.lemma_adjacent_symmetric(a, b);
                grid.lemma_adjacent_symmetric(b, a);
            }
        }
        if n > 0 {
            crate::grid::lemma_coords_bounds(rows, cols, 0);
            assert(n >= cols) by (nonlinear_arith)
                requires
                    n == rows * cols,
                    n > 0,
                    cols > 0,
            ;
            assert forall|c: Cell| grid.has_cell(c) implies #[trigger] grid.reachable(
                c,
                (cols - 1) as usize,
            ) by {
                lemma_binary_reaches_corner(grid, c);
            }
            grid.lemma_connected_through((cols - 1) as usize);
        }
    }
}


/// Whether each cell from `lo` up to `hi`, `hi` excluded, is linked to the next.
pub open spec fn run_linked(g: &Grid, lo: Cell, hi: Cell) -> bool {
    forall|y: Cell, z: Cell| lo <= y < hi && z == y + 1 ==> #[trigger] g.linked(y, z)
}

/// Whether the cells from `lo` to `hi` are a closed run that holds `x`: they lie
/// in one row, each is linked to the next, and the run either begins the grid or
/// has a member `m` that is linked to its northern neighbor.
pub open spec fn run_witness(g: &Grid, x: Cell, lo: Cell, hi: Cell, m: Cell) -> bool {
    &&& lo <= x <= hi
    &&& lo <= m <= hi
    &&& hi < lo + g.cols()
    &&& g.has_cell(hi)
    &&& run_linked(g, lo, hi)
    &&& (lo == 0 || (g.north(m) is Some && g.linked(m, g.north(m).unwrap())))
}

/// Whether `x` lies in a closed run.
pub open spec fn run_closed(g: &Grid, x: Cell) -> bool {
    exists|lo: Cell, hi: Cell, m: Cell| #[trigger] run_witness(g, x, lo, hi, m)
}

/// Whether every cell below `bound` lies in a closed run.
pub open spec fn runs_closed(g: &Grid, bound: int) -> bool {
    forall|x: Cell| x < bound && g.has_cell(x) ==> #[trigger] run_closed(g, x)
}

/// The links of a sidewinder maze in progress: every link leads east from a cell
/// below `bound`, or north from a cell below `run_start`.
pub open spec fn sidewinder_links(g: &Grid, bound: int, run_start: int) -> bool {
    &&& forall|a: Cell| !#[trigger] g.linked(a, a)
    &&& forall|a: Cell, b: Cell| #[trigger]
        g.linked(a, b) && a < b ==> (g.east(a) == Some(b) && a < bound) || (g.north(b) == Some(a)
            && b < run_start)
}

/// A run stays linked where links are added.
proof fn lemma_run_linked_monotone(g: &Grid, after: &Grid, lo: Cell, hi: Cell)
    requires
        forall|a: Cell, b: Cell| #[trigger] g.linked(a, b) ==> after.linked(a, b),
        run_linked(g, lo, hi),
    ensures
        run_linked(after, lo, hi),
{
    assert forall|y: Cell, z: Cell| lo <= y < hi && z == y + 1 implies #[trigger] after.linked(
        y,
        z,
    ) by {
        assert(g.linked(y, z));
    }
}

/// A closed run stays one where links are added.
proof fn lemma_run_closed_monotone(g: &Grid, after: &Grid, x: Cell)
    requires
        g.size() == after.size(),
        g.cols() == after.cols(),
        g.rows() == after.rows(),
        forall|a: Cell, b: Cell| #[trigger] g.linked(a, b) ==> after.linked(a, b),
        run_closed(g, x),
    ensures
        run_closed(after, x),
{
    let (lo, hi, m) = choose|lo: Cell, hi: Cell, m: Cell| #[trigger] run_witness(g, x, lo, hi, m);
    assert(run_linked(after, lo, hi)) by {
        assert forall|y: Cell, z: Cell| lo <= y < hi && z == y + 1 implies #[trigger] after.linked(
            y,
            z,
        ) by {
            assert(g.linked(y, z));
        }
    }
    assert(run_witness(after, x, lo, hi, m));
}

/// Within a run, every cell reaches every later one.
proof fn lemma_run_reach(g: &Grid, lo: Cell, hi: Cell, a: Cell, b: Cell)
    requires
        g.wf(),
        run_linked(g, lo, hi),
        g.has_cell(hi),
        lo <= a <= b <= hi,
    ensures
        g.reachable(a, b),
    decreases b - a,
{
    g.lemma_wf();
    if a == b {
        g.lemma_reachable_step(a, a);
    } else {
        let c = (b - 1) as usize;
        lemma_run_reach(g, lo, hi, a, c);
        assert(g.linked(c, b));
        g.lemma_reachable_step(c, b);
        g.lemma_reachable_transitive(a, c, b);
    }
}

/// Where every cell lies in a closed run, every cell reaches cell 0.
proof fn lemma_runs_reach_origin(g: &Grid, x: Cell)
    requires
        g.wf(),
        g.has_cell(x),
        runs_closed(g, g.size() as int),
    ensures
        g.reachable(x, 0),
    decreases x,
{
    g.lemma_wf();
    assert(run_closed(g, x));
    let (lo, hi, m) = choose|lo: Cell, hi: Cell, m: Cell| #[trigger] run_witness(g, x, lo, hi, m);
    if lo == 0 {
        lemma_run_reach(g, lo, hi, 0, x);
        g.lemma_reachable_symmetric(0, x);
    } else {
        if x <= m {
            lemma_run_reach(g, lo, hi, x, m);
        } else {
            lemma_run_reach(g, lo, hi, m, x);
            g.lemma_reachable_symmetric(m, x);
        }
        let up = g.north(m).unwrap();
        assert(g.has_cell(m));
        crate::grid::lemma_neighbor_coords(g.rows(), g.cols(), m as nat);
        g.lemma_reachable_step(m, up);
        g.lemma_reachable_transitive(x, m, up);
        lemma_runs_reach_origin(g, up);
        g.lemma_reachable_transitive(x, up, 0);
    }
}

/// Produces a sidewinder maze. Row by row, each cell either extends the current
/// run by a link to the east or closes it; a closed run is linked to the north
/// from one of its cells, chosen at random. A run closes at the eastern boundary,
/// and elsewhere on the flip of a coin, except in the first row, which becomes
/// one unbroken run.
pub fn sidewinder_maze(grid: &mut Grid, rng: &mut StdRng)
    requires
        old(grid).wf(),
    ensures
        final(grid).wf(),
        final(grid).rows() == old(grid).rows(),
        final(grid).cols() == old(grid).cols(),
        final(grid).size() == old(grid).size(),
        final(grid).is_perfect_maze(),
        runs_closed(final(grid), final(grid).size() as int),
        sidewinder_links(final(grid), final(grid).size() as int, final(grid).size() as int),
        final(grid).size() > 0 ==> run_linked(final(grid), 0, (final(grid).cols() - 1) as usize),
{
    grid.clear();
    let n = grid.num_cells();
    let num_rows = grid.num_rows();
    let num_cols = grid.num_cols();
    let ghost rows = grid.rows();
    let ghost cols = grid.cols();
    proof {
        grid.lemma_no_edges();
        grid.lemma_wf();
    }
    let ghost mut base: int = 0;
    let mut i: usize = 0;
    while i < num_rows
        invariant
            grid.wf(),
            grid.rows() == rows,
            grid.cols() == cols,
            num_rows == rows,
            num_cols == cols,
            n == grid.size(),
            n == rows * cols,
            i <= rows,
            base == i * cols,
            base <= n,
            grid.edges().finite(),
            grid.edges().len() == (if base >= cols && base > 0 {
                base - 1
            } else {
                base as int
            }),
            sidewinder_links(grid, base, base),
            runs_closed(grid, base),
            i > 0 && cols > 0 ==> run_linked(grid, 0, (cols - 1) as usize),
        decreases num_rows - i,
    {
        let mut run: Vec<Cell> = Vec::new();
        let ghost mut first: int = 0;
        let mut j: usize = 0;
        proof {
            assert(base + cols == (i + 1) * cols) by (nonlinear_arith)
                requires
                    base == i * cols,
            ;
            assert((i + 1) * cols <= rows * cols) by (nonlinear_arith)
                requires
                    i < rows,
            ;
            if i > 0 {
                assert(i * cols >= cols) by (nonlinear_arith)
                    requires
                        i > 0,
                ;
            }
        }
        while j < num_cols
            invariant
                grid.wf(),
                grid.rows() == rows,
                grid.cols() == cols,
                num_rows == rows,
                num_cols == cols,
                n == grid.size(),
                n == rows * cols,
                i < rows,
                j <= cols,
                base == i * cols,
                base + cols <= n,
                i > 0 ==> base >= cols,
                i == 0 ==> base == 0,
                0 <= first <= j,
                first + run@.len() == j,
                i == 0 && j < cols ==> first == 0,
                j == cols && cols > 0 ==> run@.len() == 0,
                forall|k: int| 0 <= k < run@.len() ==> #[trigger] run@[k] == base + first + k,
                grid.edges().finite(),
                grid.edges().len() == (if base + j >= cols && base + j > 0 {
                    base + j - 1
                } else {
                    base + j
                }),
                sidewinder_links(grid, base + j, base + first),
                runs_closed(grid, base + first),
                run_linked(grid, (base + first) as usize, (base + j) as usize),
                (i > 0 || j == cols) && cols > 0 ==> run_linked(grid, 0, (cols - 1) as usize),
            decreases num_cols - j,
        {
            proof {
                grid.lemma_wf();
                crate::grid::lemma_cell_bounds(rows, cols, i as nat, j as nat);
            }
            let cell = grid.cell(i, j);
            assert(cell == base + j);
            run.push(cell);
            let at_eastern_boundary = grid.east_of(cell).is_none();
            let at_northern_boundary = grid.north_of(cell).is_none();
            let mut should_close_out = at_eastern_boundary;
            if !should_close_out && !at_northern_boundary {
                should_close_out = !flip(rng);
            }
            let ghost before = *grid;
            let ghost lo = (base + first) as usize;
            if should_close_out {
                let member = sample(rng, run.as_slice());
                proof {
                    let k = choose|k: int| 0 <= k < run@.len() && run@[k] == member;
                    assert(member == base + first + k);
                    crate::grid::lemma_cell_bounds(rows, cols, i as nat, (first + k) as nat);
                    crate::grid::lemma_neighbor_coords(rows, cols, member as nat);
                    assert(grid.row_of(member) == i);
                }
                if let Some(ncell) = grid.north_of(member) {
                    proof {
                        assert(!before.linked(ncell, member));
                        assert(!before.linked(member, ncell));
                    }
                    grid.link(member, ncell);
                    proof {
                        before.lemma_edges_after_link(grid, member, ncell);
                        if i > 0 {
                            lemma_run_linked_monotone(&before, grid, 0, (cols - 1) as usize);
                        }
                        assert(sidewinder_links(grid, base + j + 1, base + j + 1))
                            by {
                            assert forall|a: Cell| !#[trigger] grid.linked(a, a) by {
                                assert(!before.linked(a, a));
                            }
                            assert forall|a: Cell, b: Cell| #[trigger]
                                grid.linked(a, b) && a < b implies (grid.east(a) == Some(b) && a
                                < base + j + 1) || (grid.north(b) == Some(a) && b < base + j + 1) by {
                                if !before.linked(a, b) {
                                    assert(a == ncell && b == member);
                                }
                            }
                        }
                    }
                }
                proof {
                    assert(run_linked(grid, lo, cell)) by {
                        assert forall|y: Cell, z: Cell|
                            lo <= y < cell && z == y + 1 implies #[trigger] grid.linked(y, z) by {
                            assert(before.linked(y, z));
                        }
                    }
                    assert forall|x: Cell|
                        x < base + j + 1 && grid.has_cell(x) implies #[trigger] run_closed(
                        grid,
                        x,
                    ) by {
                        if x < lo {
                            assert(run_closed(&before, x));
                            lemma_run_closed_monotone(&before, grid, x);
                        } else {
                            assert(run_witness(grid, x, lo, cell, member));
                        }
                    }
                    first = (j + 1) as int;
                }
                run.clear();
            } else {
                match grid.east_of(cell) {
                    Some(ecell) => {
                        proof {
                            crate::grid::lemma_neighbor_coords(rows, cols, cell as nat);
                            assert(!before.linked(cell, ecell));
                        }
                        grid.link(cell, ecell);
                        proof {
                            before.lemma_edges_after_link(grid, cell, ecell);
                            if i > 0 {
                                lemma_run_linked_monotone(&before, grid, 0, (cols - 1) as usize);
                            }
                            assert(sidewinder_links(
                                grid,
                                base + j + 1,
                                base + first,
                            )) by {
                                assert forall|a: Cell| !#[trigger] grid.linked(a, a) by {
                                    assert(!before.linked(a, a));
                                }
                                assert forall|a: Cell, b: Cell| #[trigger]
                                    grid.linked(a, b) && a < b implies (grid.east(a) == Some(b) && a
                                    < base + j + 1) || (grid.north(b) == Some(a) && b < base
                                    + first) by {
                                    if !before.linked(a, b) {
                                        assert(a == cell && b == ecell);
                                    }
                                }
                            }
                            assert(run_linked(grid, lo, (cell + 1) as usize)) by {
                                assert forall|y: Cell, z: Cell|
                                    lo <= y < cell + 1 && z == y + 1 implies #[trigger] grid.linked(
                                    y,
                                    z,
                                ) by {
                                    if y < cell {
                                        assert(before.linked(y, z));
                                    }
                                }
                            }
                            assert forall|x: Cell|
                                x < base + first && grid.has_cell(x) implies #[trigger] run_closed(
                                grid,
                                x,
                            ) by {
                                assert(run_closed(&before, x));
                                lemma_run_closed_monotone(&before, grid, x);
                            }
                        }
                    },
                    None => {},
                }
            }
            j += 1;
        }
        proof {
            if cols == 0 {
                assert(rows * cols == 0) by (nonlinear_arith)
                    requires
                        cols == 0,
                ;
            }
            base = base + cols;
        }
        i += 1;
    }
    proof {
        grid.lemma_wf();
        assert(base == n) by (nonlinear_arith)
            requires
                base == i * cols,
                i == rows,
                n == rows * cols,
        ;
        assert(grid.links_adjacent()) by {
            assert forall|a: Cell, b: Cell| #[trigger] grid.linked(a, b) implies grid.adjacent(
                a,
                b,
            ) by {
                assert(grid.linked(b, a));
                grid.lemma_adjacent_symmetric(a, b);
                grid.lemma_adjacent_symmetric(b, a);
            }
        }
        if n > 0 {
            crate::grid::lemma_coords_bounds(rows, cols, 0);
            assert(n >= cols) by (nonlinear_arith)
                requires
                    n == rows * cols,
                    n > 0,
                    cols > 0,
            ;
            assert forall|c: Cell| grid.has_cell(c) implies #[trigger] grid.reachable(c, 0) by {
                lemma_runs_reach_origin(grid, c);
            }
            grid.lemma_connected_through(0);
        }
    }
}


/// Whether cell `c` has been visited: it is linked to some cell.
pub open spec fn has_links(g: &Grid, c: Cell) -> bool {
    g.link_list(c).len() > 0
}

/// Having a link and being linked to some cell are the same.
proof fn lemma_has_links(g: &Grid, c: Cell)
    ensures
        g.has_cell(c) ==> (has_links(g, c) <==> exists|x: Cell| g.linked(c, x)),
        forall|x: Cell| g.linked(c, x) ==> has_links(g, c),
{
    if has_links(g, c) {
        assert(g.link_list(c)[0] == g.link_list(c)[0]);
        if g.has_cell(c) {
            assert(g.linked(c, g.link_list(c)[0]));
        }
    }
}

/// The neighbors of `cell` that have links, where `linked` is true, or those that
/// have none, where it is false; in the order north, south, east, west.
fn neighbors_with_links(grid: &Grid, cell: Cell, linked: bool) -> (r: Vec<Cell>)
    requires
        grid.wf(),
        grid.has_cell(cell),
    ensures
        forall|x: Cell| #[trigger]
            r@.contains(x) ==> grid.adjacent(cell, x) && grid.has_cell(x) && has_links(grid, x)
                == linked,
        forall|x: Cell|
            grid.adjacent(cell, x) && #[trigger] has_links(grid, x) == linked ==> r@.contains(x),
{
    let all = grid.neighbors(cell);
    let mut r: Vec<Cell> = Vec::new();
    let mut k: usize = 0;
    while k < all.len()
        invariant
            grid.wf(),
            k <= all@.len(),
            forall|m: int| 0 <= m < all@.len() ==> grid.has_cell(#[trigger] all@[m]),
            forall|x: Cell| #[trigger]
                r@.contains(x) ==> all@.contains(x) && has_links(grid, x) == linked,
            forall|m: int|
                0 <= m < k && has_links(grid, #[trigger] all@[m]) == linked ==> r@.contains(
                    all@[m],
                ),
        decreases all@.len() - k,
    {
        let c = all[k];
        let ghost before = r@;
        if (grid.links(c).len() > 0) == linked {
            r.push(c);
            proof {
                assert(r@[before.len() as int] == c);
                assert(all@.contains(c));
                assert forall|x: Cell| #[trigger] r@.contains(x) implies all@.contains(x)
                    && has_links(grid, x) == linked by {
                    let m = choose|m: int| 0 <= m < r@.len() && r@[m] == x;
                    if m < before.len() {
                        assert(before[m] == x);
                        assert(before.contains(x));
                    }
                }
                assert forall|m: int|
                    0 <= m < k + 1 && has_links(grid, #[trigger] all@[m])
                        == linked implies r@.contains(all@[m]) by {
                    if m < k {
                        assert(before.contains(all@[m]));
                        let i = choose|i: int| 0 <= i < before.len() && before[i] == all@[m];
                        assert(r@[i] == all@[m]);
                    }
                }
            }
        }
        k += 1;
    }
    proof {
        assert forall|x: Cell|
            grid.adjacent(cell, x) && #[trigger] has_links(grid, x) == linked implies r@.contains(
            x,
        ) by {
            assert(all@.contains(x));
            let m = choose|m: int| 0 <= m < all@.len() && all@[m] == x;
            assert(has_links(grid, all@[m]) == linked);
        }
        assert forall|x: Cell| #[trigger] r@.contains(x) implies grid.adjacent(cell, x)
            && grid.has_cell(x) && has_links(grid, x) == linked by {
            assert(all@.contains(x));
            grid.lemma_adjacent_symmetric(cell, x);
        }
    }
    r
}

/// Produces a maze by hunt and kill. From a random starting cell the walk moves
/// to a random neighbor without links and links it, until the current cell has
/// no such neighbor. The hunt then takes the first cell without links, in
/// ascending order, that has a neighbor with links, links it to one of those at
/// random, and the walk goes on from there. When the hunt finds no cell, every
/// cell is part of the maze.
pub fn hunt_and_kill(grid: &mut Grid, rng: &mut StdRng)
    requires
        old(grid).wf(),
    ensures
        final(grid).wf(),
        final(grid).rows() == old(grid).rows(),
        final(grid).cols() == old(grid).cols(),
        final(grid).size() == old(grid).size(),
        final(grid).is_perfect_maze(),
{
    grid.clear();
    let n = grid.num_cells();
    let ghost rows = grid.rows();
    let ghost cols = grid.cols();
    if n == 0 {
        return ;
    }
    let mut current: Cell = random_below(rng, n);
    let ghost root = current;
    let ghost mut t: Set<int> = set![current as int];
    proof {
        grid.lemma_tree_seed(root);
    }
    while current != n
        invariant
            grid.wf(),
            grid.rows() == rows,
            grid.cols() == cols,
            n == grid.size(),
            n > 0,
            current <= n,
            current < n ==> t.contains(current as int),
            grid.is_partial_tree(t, root),
            current < n ==> forall|c: Cell|
                t.contains(c as int) ==> #[trigger] has_links(grid, c) || c == current,
            current < n && !has_links(grid, current) ==> forall|a: Cell, b: Cell|
                !grid.linked(a, b),
            current == n ==> forall|c: Cell| grid.has_cell(c) ==> t.contains(c as int),
        decreases
                n - t.len() + (if current != n {
                    1int
                } else {
                    0int
                }),
    {
        proof {
            grid.lemma_wf();
            grid.lemma_tree_size(t, root);
        }
        let unvisited_neighbors = neighbors_with_links(grid, current, false);
        let ghost before = *grid;
        if unvisited_neighbors.len() > 0 {
            let neighbor = sample(rng, unvisited_neighbors.as_slice());
            proof {
                assert(unvisited_neighbors@.contains(neighbor));
                before.lemma_adjacent_symmetric(current, neighbor);
                assert(!has_links(&before, neighbor));
                assert(!t.contains(neighbor as int));
            }
            grid.link(current, neighbor);
            proof {
                before.lemma_tree_grows(grid, t, root, current, neighbor);
                assert(grid.linked(current, neighbor) && grid.linked(neighbor, current));
                lemma_has_links(grid, current);
                lemma_has_links(grid, neighbor);
                assert(t.insert(neighbor as int).len() == t.len() + 1);
                assert forall|c: Cell| t.insert(neighbor as int).contains(c as int) implies #[trigger] has_links(
                    grid,
                    c,
                ) || c == neighbor by {
                    if c != neighbor && c != current {
                        assert(before.has_cell(c));
                        assert(has_links(&before, c));
                        assert(grid.link_list(c) == before.link_list(c));
                    } else if c == current {
                        assert(grid.link_list(c).contains(neighbor));
                    }
                }
                t = t.insert(neighbor as int);
                grid.lemma_tree_size(t, root);
            }
            current = neighbor;
        } else {
            let ghost stuck = current;
            current = n;
            let mut cell: usize = 0;
            while cell < n && current == n
                invariant
                    grid.wf(),
                    before.wf(),
                    grid.rows() == rows,
                    grid.cols() == cols,
                    n == grid.size(),
                    n > 0,
                    cell <= n,
                    current <= n,
                    stuck < n,
                    before.is_partial_tree(t, root),
                    t.contains(stuck as int),
                    current == n ==> *grid == before,
                    current == n ==> forall|c: Cell|
                        c < cell ==> #[trigger] has_links(grid, c) || forall|x: Cell|
                            grid.adjacent(c, x) ==> !has_links(grid, x),
                    forall|c: Cell|
                        t.contains(c as int) ==> #[trigger] has_links(&before, c) || c == stuck,
                    !has_links(&before, stuck) ==> forall|a: Cell, b: Cell| !before.linked(a, b),
                    current < n ==> !t.contains(current as int) && grid.is_partial_tree(
                        t.insert(current as int),
                        root,
                    ) && has_links(grid, current) && t.insert(current as int).len() == t.len() + 1
                        && forall|c: Cell| t.contains(c as int) ==> #[trigger] has_links(grid, c),
                decreases
                        n - cell + (if current == n {
                            1int
                        } else {
                            0int
                        }),
            {
                let visited_neighbors = neighbors_with_links(grid, cell, true);
                if grid.links(cell).len() == 0 && visited_neighbors.len() > 0 {
                    current = cell;
                    let neighbor = sample(rng, visited_neighbors.as_slice());
                    proof {
                        assert(visited_neighbors@.contains(neighbor));
                        before.lemma_wf();
                        before.lemma_adjacent_symmetric(current, neighbor);
                        lemma_has_links(&before, neighbor);
                        lemma_has_links(&before, current);
                        assert(t.contains(neighbor as int));
                        assert(!t.contains(current as int));
                    }
                    grid.link(current, neighbor);
                    proof {
                        before.lemma_tree_grows(grid, t, root, neighbor, current);
                        assert(grid.linked(current, neighbor) && grid.linked(neighbor, current));
                        lemma_has_links(grid, current);
                        lemma_has_links(grid, neighbor);
                        assert(t.insert(current as int).len() == t.len() + 1);
                        assert forall|c: Cell| t.contains(c as int) implies #[trigger] has_links(
                            grid,
                            c,
                        ) by {
                            assert(before.has_cell(c));
                            if c == neighbor {
                                assert(grid.link_list(c).contains(current));
                            } else {
                                assert(has_links(&before, c) || c == stuck);
                                if !has_links(&before, stuck) {
                                    assert(has_links(&before, neighbor));
                                    lemma_has_links(&before, neighbor);
                                }
                                assert(has_links(&before, c));
                                assert(grid.link_list(c) == before.link_list(c));
                            }
                        }
                    }
                } else {
                    proof {
                        assert forall|x: Cell| grid.adjacent(cell, x) && has_links(
                            grid,
                            cell,
                        ) == false implies !has_links(grid, x) by {
                            if has_links(grid, x) {
                                assert(visited_neighbors@.contains(x));
                            }
                        }
                    }
                    cell += 1;
                }
            }
            proof {
                if current == n {
                    grid.lemma_wf();
                    if has_links(grid, stuck) {
                        let v = Set::new(|c: int| 0 <= c < n && has_links(grid, c as usize));
                        assert forall|a: Cell, b: Cell|
                            grid.has_cell(a) && v.contains(a as int) && #[trigger] grid.adjacent(
                                a,
                                b,
                            ) implies v.contains(b as int) by {
                            grid.lemma_adjacent_symmetric(a, b);
                            assert(has_links(grid, b) || forall|x: Cell|
                                grid.adjacent(b, x) ==> !has_links(grid, x));
                        }
                        grid.lemma_closed_set_is_everything(v, stuck);
                        assert forall|c: Cell| grid.has_cell(c) implies t.contains(c as int) by {
                            assert(v.contains(c as int));
                            lemma_has_links(grid, c);
                        }
                    } else {
                        assert forall|x: Cell| !grid.adjacent(stuck, x) by {
                            if grid.adjacent(stuck, x) {
                                grid.lemma_adjacent_symmetric(stuck, x);
                                lemma_has_links(grid, x);
                                assert(unvisited_neighbors@.contains(x));
                            }
                        }
                        grid.lemma_lonely_cell(stuck);
                    }
                } else {
                    t = t.insert(current as int);
                    grid.lemma_tree_size(t, root);
                }
            }
        }
    }
    proof {
        grid.lemma_tree_spans(t, root);
    }
}


/// The neighbors of `cell` that are not marked in `visited`, in the order north,
/// south, east, west.
fn unvisited_neighbors(grid: &Grid, cell: Cell, visited: &Vec<bool>) -> (r: Vec<Cell>)
    requires
        grid.wf(),
        grid.has_cell(cell),
        visited@.len() == grid.size(),
    ensures
        forall|x: Cell| #[trigger]
            r@.contains(x) ==> grid.adjacent(cell, x) && grid.has_cell(x) && !visited@[x as int],
        forall|x: Cell| #[trigger] grid.adjacent(cell, x) && !visited@[x as int] ==> r@.contains(x),
{
    let all = grid.neighbors(cell);
    let mut r: Vec<Cell> = Vec::new();
    let mut k: usize = 0;
    while k < all.len()
        invariant
            grid.wf(),
            visited@.len() == grid.size(),
            k <= all@.len(),
            forall|m: int| 0 <= m < all@.len() ==> grid.has_cell(#[trigger] all@[m]),
            forall|x: Cell| #[trigger]
                r@.contains(x) ==> all@.contains(x) && grid.has_cell(x) && !visited@[x as int],
            forall|m: int|
                0 <= m < k && !visited@[#[trigger] all@[m] as int] ==> r@.contains(all@[m]),
        decreases all@.len() - k,
    {
        let c = all[k];
        let ghost before = r@;
        if !visited[c] {
            r.push(c);
            proof {
                assert(r@[before.len() as int] == c);
                assert(all@.contains(c));
                assert forall|x: Cell| #[trigger] r@.contains(x) implies all@.contains(x)
                    && grid.has_cell(x) && !visited@[x as int] by {
                    let m = choose|m: int| 0 <= m < r@.len() && r@[m] == x;
                    if m < before.len() {
                        assert(before[m] == x);
                        assert(before.contains(x));
                    }
                }
                assert forall|m: int|
                    0 <= m < k + 1 && !visited@[#[trigger] all@[m] as int] implies r@.contains(
                    all@[m],
                ) by {
                    if m < k {
                        assert(before.contains(all@[m]));
                        let i = choose|i: int| 0 <= i < before.len() && before[i] == all@[m];
                        assert(r@[i] == all@[m]);
                    }
                }
            }
        }
        k += 1;
    }
    proof {
        assert forall|x: Cell| #[trigger]
            grid.adjacent(cell, x) && !visited@[x as int] implies r@.contains(x) by {
            assert(all@.contains(x));
            let m = choose|m: int| 0 <= m < all@.len() && all@[m] == x;
            assert(!visited@[all@[m] as int]);
        }
    }
    r
}

/// The cells that are marked in `visited`.
pub open spec fn marked(visited: Seq<bool>) -> Set<int> {
    Set::new(|c: int| 0 <= c < visited.len() && visited[c])
}

/// Produces a maze by recursive backtracking. A stack holds the way back from
/// the current cell to a random starting cell. While the cell on top has
/// neighbors that were not visited, one of them is chosen at random, linked,
/// marked as visited and pushed; when it has none, it is popped. The maze is
/// complete when the stack is empty.
pub fn recursive_backtracker(grid: &mut Grid, rng: &mut StdRng)
    requires
        old(grid).wf(),
    ensures
        final(grid).wf(),
        final(grid).rows() == old(grid).rows(),
        final(grid).cols() == old(grid).cols(),
        final(grid).size() == old(grid).size(),
        final(grid).is_perfect_maze(),
{
    grid.clear();
    let n = grid.num_cells();
    let ghost rows = grid.rows();
    let ghost cols = grid.cols();
    if n == 0 {
        return ;
    }
    let start: Cell = random_below(rng, n);
    let mut visited: Vec<bool> = Vec::with_capacity(n);
    let mut k: usize = 0;
    while k < n
        invariant
            k <= n,
            visited@.len() == k,
            forall|c: int| 0 <= c < k ==> !#[trigger] visited@[c],
        decreases n - k,
    {
        visited.push(false);
        k += 1;
    }
    visited[start] = true;
    let mut stack: Vec<Cell> = Vec::new();
    stack.push(start);
    proof {
        grid.lemma_tree_seed(start);
        assert(marked(visited@) =~= set![start as int]);
        assert(stack@[0] == start);
    }
    while stack.len() > 0
        invariant
            grid.wf(),
            grid.rows() == rows,
            grid.cols() == cols,
            n == grid.size(),
            n > 0,
            start < n,
            visited@.len() == n,
            grid.is_partial_tree(marked(visited@), start),
            forall|m: int|
                0 <= m < stack@.len() ==> (#[trigger] stack@[m]) < n && visited@[stack@[m] as int],
            forall|c: Cell, x: Cell|
                c < n && visited@[c as int] && !stack@.contains(c) && #[trigger] grid.adjacent(c, x)
                    ==> visited@[x as int],
        decreases n - marked(visited@).len(), stack@.len(),
    {
        proof {
            grid.lemma_wf();
            grid.lemma_tree_size(marked(visited@), start);
        }
        let top = stack[stack.len() - 1];
        let candidates = unvisited_neighbors(grid, top, &visited);
        let ghost before = *grid;
        let ghost old_visited = visited@;
        let ghost old_stack = stack@;
        if candidates.len() > 0 {
            let next = sample(rng, candidates.as_slice());
            proof {
                assert(candidates@.contains(next));
            }
            grid.link(top, next);
            visited[next] = true;
            stack.push(next);
            proof {
                assert(marked(visited@) =~= marked(old_visited).insert(next as int));
                before.lemma_tree_grows(grid, marked(old_visited), start, top, next);
                assert(marked(old_visited).insert(next as int).len() == marked(old_visited).len()
                    + 1);
                assert(stack@[old_stack.len() as int] == next);
                assert forall|c: Cell, x: Cell|
                    c < n && visited@[c as int] && !stack@.contains(c) && #[trigger] grid.adjacent(
                        c,
                        x,
                    ) implies visited@[x as int] by {
                    before.lemma_adjacent_symmetric(c, x);
                    assert(c != next);
                    if old_stack.contains(c) {
                        let m = choose|m: int| 0 <= m < old_stack.len() && old_stack[m] == c;
                        assert(stack@[m] == c);
                    }
                    assert(before.adjacent(c, x));
                    assert(old_visited[x as int]);
                }
                grid.lemma_tree_size(marked(visited@), start);
            }
        } else {
            stack.pop();
            proof {
                assert forall|c: Cell, x: Cell|
                    c < n && visited@[c as int] && !stack@.contains(c) && #[trigger] grid.adjacent(
                        c,
                        x,
                    ) implies visited@[x as int] by {
                    if c != top {
                        if old_stack.contains(c) {
                            let m = choose|m: int| 0 <= m < old_stack.len() && old_stack[m] == c;
                            assert(stack@[m] == c);
                        }
                    }
                }
            }
        }
    }
    proof {
        grid.lemma_wf();
        let t = marked(visited@);
        assert forall|a: Cell, b: Cell|
            grid.has_cell(a) && t.contains(a as int) && #[trigger] grid.adjacent(
                a,
                b,
            ) implies t.contains(b as int) by {
            grid.lemma_adjacent_symmetric(a, b);
            assert(!stack@.contains(a));
        }
        grid.lemma_closed_set_is_everything(t, start);
        grid.lemma_tree_spans(t, start);
    }
}

} // verus!
