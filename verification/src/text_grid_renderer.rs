//! Renders a grid as text: one box of `+`, `-` and `|` per cell, open where
//! the cell is linked to its eastern or southern neighbor, with an optional
//! label in each cell.

use vstd::prelude::*;
use vstd::string::StrSliceExecFns;
use vstd::string::StringExecFns;
use crate::grid::Cell;
use crate::grid::Grid;

verus! {

/// The character `c`, `n` times.
pub open spec fn repeated(c: char, n: nat) -> Seq<char> {
    Seq::new(n, |k: int| c)
}

/// The label centered in a field of `width` characters. Where the padding is
/// odd, the extra space stands to the right; a label wider than the field is
/// kept whole.
pub open spec fn centered(label: Seq<char>, width: nat) -> Seq<char> {
    if label.len() >= width {
        label
    } else {
        let left = (width - label.len()) / 2;
        repeated(' ', left as nat) + label + repeated(' ', (width - label.len() - left) as nat)
    }
}

/// The label of cell `c`: the text at position `c` of `labels`, or nothing.
pub open spec fn label_at(labels: Seq<Option<String>>, c: int) -> Seq<char> {
    if 0 <= c < labels.len() && labels[c] is Some {
        labels[c].unwrap()@
    } else {
        Seq::empty()
    }
}

/// The length of the longest label among those of the first `n` cells.
pub open spec fn widest_label(labels: Seq<Option<String>>, n: nat) -> nat
    decreases n,
{
    if n == 0 {
        0
    } else {
        let rest = widest_label(labels, (n - 1) as nat);
        let last = label_at(labels, n - 1).len();
        if last > rest {
            last
        } else {
            rest
        }
    }
}

/// The top border above the first `k` columns.
pub open spec fn border_part(width: nat, k: nat) -> Seq<char>
    decreases k,
{
    if k == 0 {
        Seq::empty()
    } else {
        border_part(width, (k - 1) as nat) + repeated('-', width) + seq!['+']
    }
}

/// The first `k` cells of row `i`, each with its label and its eastern wall.
pub open spec fn cells_part(
    g: &Grid,
    labels: Seq<Option<String>>,
    width: nat,
    i: nat,
    k: nat,
) -> Seq<char>
    decreases k,
{
    if k == 0 {
        Seq::empty()
    } else {
        let c = g.cell_at(i, (k - 1) as nat);
        cells_part(g, labels, width, i, (k - 1) as nat) + centered(label_at(labels, c as int), width)
            + seq![if g.open_east(c as usize) {
                ' '
            } else {
                '|'
            }]
    }
}

/// The southern walls of the first `k` cells of row `i`.
pub open spec fn south_part(g: &Grid, width: nat, i: nat, k: nat) -> Seq<char>
    decreases k,
{
    if k == 0 {
        Seq::empty()
    } else {
        let c = g.cell_at(i, (k - 1) as nat);
        south_part(g, width, i, (k - 1) as nat) + repeated(
            if g.open_south(c as usize) {
                ' '
            } else {
                '-'
            },
            width,
        ) + seq!['+']
    }
}

/// The first `k` rows: for each, a line of cells and a line of southern walls.
pub open spec fn rows_part(g: &Grid, labels: Seq<Option<String>>, width: nat, k: nat) -> Seq<char>
    decreases k,
{
    if k == 0 {
        Seq::empty()
    } else {
        let i = (k - 1) as nat;
        rows_part(g, labels, width, i) + seq!['\n', '|'] + cells_part(
            g,
            labels,
            width,
            i,
            g.cols(),
        ) + seq!['\n', '+'] + south_part(g, width, i, g.cols())
    }
}

/// The whole rendering: the top border, the rows, and a final line break.
pub open spec fn rendered(g: &Grid, labels: Seq<Option<String>>, width: nat) -> Seq<char> {
    seq!['+'] + border_part(width, g.cols()) + rows_part(g, labels, width, g.rows()) + seq!['\n']
}

/// Appends `piece`, a single character, `n` times.
fn push_repeated(buff: &mut String, piece: &str, n: usize)
    requires
        piece@.len() == 1,
    ensures
        final(buff)@ == old(buff)@ + repeated(piece@[0], n as nat),
{
    let ghost start = buff@;
    let mut k: usize = 0;
    proof {
        assert(buff@ =~= start + repeated(piece@[0], 0));
    }
    while k < n
        invariant
            k <= n,
            piece@.len() == 1,
            buff@ == start + repeated(piece@[0], k as nat),
        decreases n - k,
    {
        buff.append(piece);
        proof {
            assert(buff@ =~= start + repeated(piece@[0], (k + 1) as nat));
        }
        k += 1;
    }
}

/// A struct for rendering a grid, optionally with some data. Uses the builder
/// pattern.
#[derive(Debug, Copy, Clone)]
pub struct TextGridRenderer {
    /// The minimum width of the rendered cell in monospace characters.
    cell_width: usize,
    /// Whether to compute the width automatically.
    auto_width: bool,
    /// The margin, when computing auto width.
    margin: usize,
}

impl Default for TextGridRenderer {
    /// A renderer with cells of no width.
    fn default() -> (r: Self)
        ensures
            r.min_width() == 0,
            !r.is_auto(),
            r.auto_margin() == 0,
    {
        Self { cell_width: 0, auto_width: false, margin: 0 }
    }
}

impl TextGridRenderer {
    /// The minimum width of a cell.
    pub closed spec fn min_width(&self) -> nat {
        self.cell_width as nat
    }

    /// Whether the width grows with the labels.
    pub closed spec fn is_auto(&self) -> bool {
        self.auto_width
    }

    /// The margin on each side of the widest label, where the width grows.
    pub closed spec fn auto_margin(&self) -> nat {
        self.margin as nat
    }

    /// The width of a cell for the given labels of the first `n` cells: the
    /// minimum width, or the widest label with its margins where that is more
    /// and the width grows with the labels.
    pub open spec fn render_width(&self, labels: Seq<Option<String>>, n: nat) -> nat {
        let wanted = widest_label(labels, n) + 2 * self.auto_margin();
        if self.is_auto() && wanted > self.min_width() {
            wanted
        } else {
            self.min_width()
        }
    }

    /// Creates a new renderer with default settings: cells three characters
    /// wide, whatever the labels.
    pub fn new() -> (r: Self)
        ensures
            r.min_width() == 3,
            !r.is_auto(),
            r.auto_margin() == 0,
    {
        Self { cell_width: 3, auto_width: false, margin: 0 }
    }

    /// Sets the minimum cell width.
    pub fn cell_width(&mut self, cell_width: usize) -> (r: &mut Self)
        ensures
            r.min_width() == cell_width,
            r.is_auto() == old(self).is_auto(),
            r.auto_margin() == old(self).auto_margin(),
            *final(self) == *final(r),
    {
        self.cell_width = cell_width;
        self
    }

    /// Makes the width grow with the labels: each cell is wide enough for the
    /// widest label plus a margin on each side, and no narrower than the
    /// minimum cell width.
    pub fn auto_width(&mut self, margin: usize) -> (r: &mut Self)
        ensures
            r.min_width() == old(self).min_width(),
            r.is_auto(),
            r.auto_margin() == margin,
            *final(self) == *final(r),
    {
        self.auto_width = true;
        self.margin = margin;
        self
    }

    /// Render the grid without labels.
    pub fn render(&self, grid: &Grid) -> (r: String)
        requires
            grid.wf(),
            self.is_auto() ==> 2 * self.auto_margin() <= usize::MAX,
        ensures
            r@ == rendered(
                grid,
                Seq::<Option<String>>::empty(),
                self.render_width(Seq::<Option<String>>::empty(), grid.size()),
            ),
    {
        let labels: Vec<Option<String>> = Vec::new();
        proof {
            lemma_widest_bound(labels@, grid.size(), 0);
        }
        self.render_with(grid, &labels)
    }

    /// Render the grid, writing each label into the corresponding cell:
    /// `labels[c]` is the label of cell `c`, and a cell past the end of `labels`
    /// has none.
    pub fn render_with(&self, grid: &Grid, labels: &Vec<Option<String>>) -> (r: String)
        requires
            grid.wf(),
            self.is_auto() ==> widest_label(labels@, grid.size()) + 2 * self.auto_margin()
                <= usize::MAX,
        ensures
            r@ == rendered(grid, labels@, self.render_width(labels@, grid.size())),
    {
        // FIRST, compute the max label width.
        let n = grid.num_cells();
        let mut labwidth: usize = 0;
        let mut c: usize = 0;
        while c < n
            invariant
                c <= n,
                labwidth == widest_label(labels@, c as nat),
            decreases n - c,
        {
            if c < labels.len() {
                match &labels[c] {
                    Some(label) => {
                        let len = label.as_str().unicode_len();
                        if len > labwidth {
                            labwidth = len;
                        }
                    },
                    None => {},
                }
            }
            c += 1;
        }

        // NEXT, compute the desired cell width.
        let mut cwidth = self.cell_width;
        if self.auto_width {
            let wanted = labwidth + 2 * self.margin;
            if wanted > cwidth {
                cwidth = wanted;
            }
        }
        let ghost width = cwidth as nat;

        // NEXT, write the top border.
        let mut buff = String::new();
        let num_rows = grid.num_rows();
        let num_cols = grid.num_cols();
        proof {
            reveal_strlit("+");
            reveal_strlit("\n|");
            reveal_strlit("\n+");
            reveal_strlit("\n");
            reveal_strlit(" ");
            reveal_strlit("|");
        }
        buff.append("+");
        let mut j: usize = 0;
        proof {
            assert(buff@ =~= seq!['+'] + border_part(width, 0));
        }
        while j < num_cols
            invariant
                j <= num_cols,
                width == cwidth,
                buff@ == seq!['+'] + border_part(width, j as nat),
            decreases num_cols - j,
        {
            self.write_south(&mut buff, false, cwidth);
            proof {
                assert(buff@ =~= seq!['+'] + border_part(width, (j + 1) as nat));
            }
            j += 1;
        }

        // NEXT, write each row.
        let ghost head = buff@;
        let mut i: usize = 0;
        proof {
            assert(buff@ =~= head + rows_part(grid, labels@, width, 0));
        }
        while i < num_rows
            invariant
                grid.wf(),
                i <= num_rows,
                num_rows == grid.rows(),
                num_cols == grid.cols(),
                width == cwidth,
                buff@ == head + rows_part(grid, labels@, width, i as nat),
            decreases num_rows - i,
        {
            let ghost row_start = buff@;
            proof {
                reveal_strlit("\n|");
                reveal_strlit("\n+");
            }
            buff.append("\n|");

            // FIRST, write the cell row
            let mut j: usize = 0;
            proof {
                assert(buff@ =~= row_start + seq!['\n', '|'] + cells_part(
                    grid,
                    labels@,
                    width,
                    i as nat,
                    0,
                ));
            }
            while j < num_cols
                invariant
                    grid.wf(),
                    i < num_rows,
                    j <= num_cols,
                    num_rows == grid.rows(),
                    num_cols == grid.cols(),
                    width == cwidth,
                    buff@ == row_start + seq!['\n', '|'] + cells_part(
                        grid,
                        labels@,
                        width,
                        i as nat,
                        j as nat,
                    ),
                decreases num_cols - j,
            {
                let cell = grid.cell(i, j);
                let ghost before = buff@;
                if cell < labels.len() {
                    match &labels[cell] {
                        Some(label) => {
                            self.write_cell(&mut buff, label.as_str(), cwidth);
                        },
                        None => {
                            self.write_cell(&mut buff, "", cwidth);
                        },
                    }
                } else {
                    self.write_cell(&mut buff, "", cwidth);
                }
                proof {
                    reveal_strlit("");
                    reveal_strlit(" ");
                    reveal_strlit("|");
                    assert(""@ =~= Seq::<char>::empty());
                    assert(buff@ == before + centered(label_at(labels@, cell as int), width));
                }
                if grid.is_linked_east(cell) {
                    buff.append(" ");
                } else {
                    buff.append("|");
                }
                proof {
                    assert(buff@ =~= row_start + seq!['\n', '|'] + cells_part(
                        grid,
                        labels@,
                        width,
                        i as nat,
                        (j + 1) as nat,
                    ));
                }
                j += 1;
            }

            // NEXT, write the row of borders below
            let ghost cells_done = buff@;
            buff.append("\n+");
            let mut j: usize = 0;
            proof {
                assert(buff@ =~= cells_done + seq!['\n', '+'] + south_part(
                    grid,
                    width,
                    i as nat,
                    0,
                ));
            }
            while j < num_cols
                invariant
                    grid.wf(),
                    i < num_rows,
                    j <= num_cols,
                    num_rows == grid.rows(),
                    num_cols == grid.cols(),
                    width == cwidth,
                    buff@ == cells_done + seq!['\n', '+'] + south_part(
                        grid,
                        width,
                        i as nat,
                        j as nat,
                    ),
                decreases num_cols - j,
            {
                let cell = grid.cell(i, j);
                self.write_south(&mut buff, grid.is_linked_south(cell), cwidth);
                proof {
                    assert(buff@ =~= cells_done + seq!['\n', '+'] + south_part(
                        grid,
                        width,
                        i as nat,
                        (j + 1) as nat,
                    ));
                }
                j += 1;
            }
            proof {
                assert(buff@ =~= head + rows_part(grid, labels@, width, (i + 1) as nat));
            }
            i += 1;
        }

        buff.append("\n");
        proof {
            assert(buff@ =~= rendered(grid, labels@, width));
        }

        // FINALLY, return the buff
        buff
    }

    /// Writes the label, centered in a field of the given width.
    fn write_cell(&self, buff: &mut String, value: &str, width: usize)
        ensures
            final(buff)@ == old(buff)@ + centered(value@, width as nat),
    {
        let len = value.unicode_len();
        proof {
            reveal_strlit(" ");
        }
        if len >= width {
            buff.append(value);
        } else {
            let left = (width - len) / 2;
            let ghost start = buff@;
            push_repeated(buff, " ", left);
            buff.append(value);
            push_repeated(buff, " ", width - len - left);
            proof {
                assert(buff@ =~= start + centered(value@, width as nat));
            }
        }
    }

    /// Writes the southern wall of a cell, open or closed, and the corner
    /// after it.
    fn write_south(&self, buff: &mut String, open: bool, width: usize)
        ensures
            final(buff)@ == old(buff)@ + repeated(
                if open {
                    ' '
                } else {
                    '-'
                },
                width as nat,
            ) + seq!['+'],
    {
        proof {
            reveal_strlit(" ");
            reveal_strlit("-");
            reveal_strlit("+");
        }
        if open {
            push_repeated(buff, " ", width);
        } else {
            push_repeated(buff, "-", width);
        }
        buff.append("+");
    }
}

/// No label is longer than the longest.
proof fn lemma_widest_bound(labels: Seq<Option<String>>, n: nat, bound: nat)
    requires
        forall|c: int| 0 <= c < n ==> label_at(labels, c).len() <= bound,
    ensures
        widest_label(labels, n) <= bound,
    decreases n,
{
    if n > 0 {
        lemma_widest_bound(labels, (n - 1) as nat, bound);
    }
}

/// The decimal digit for a value below ten.
pub open spec fn digit_char(n: nat) -> char {
    if n == 0 {
        '0'
    } else if n == 1 {
        '1'
    } else if n == 2 {
        '2'
    } else if n == 3 {
        '3'
    } else if n == 4 {
        '4'
    } else if n == 5 {
        '5'
    } else if n == 6 {
        '6'
    } else if n == 7 {
        '7'
    } else if n == 8 {
        '8'
    } else {
        '9'
    }
}

/// The number in decimal digits, without leading zeros.
pub open spec fn decimal_text(n: nat) -> Seq<char>
    decreases n,
{
    if n < 10 {
        seq![digit_char(n)]
    } else {
        decimal_text(n / 10) + seq![digit_char(n % 10)]
    }
}

/// The text of a grid: its dimensions on a line of their own, the rendering
/// with the default settings, and an empty line.
pub open spec fn grid_text(g: &Grid) -> Seq<char> {
    "Grid("@ + decimal_text(g.rows()) + "x"@ + decimal_text(g.cols()) + ")\n"@ + rendered(
        g,
        Seq::<Option<String>>::empty(),
        3,
    ) + "\n"@
}

/// The decimal digit of a value below ten, as a string.
fn digit_text(n: usize) -> (r: &'static str)
    requires
        n < 10,
    ensures
        r@ == seq![digit_char(n as nat)],
{
    proof {
        reveal_strlit("0");
        reveal_strlit("1");
        reveal_strlit("2");
        reveal_strlit("3");
        reveal_strlit("4");
        reveal_strlit("5");
        reveal_strlit("6");
        reveal_strlit("7");
        reveal_strlit("8");
        reveal_strlit("9");
    }
    let r = match n {
        0 => "0",
        1 => "1",
        2 => "2",
        3 => "3",
        4 => "4",
        5 => "5",
        6 => "6",
        7 => "7",
        8 => "8",
        _ => "9",
    };
    proof {
        assert(r@ =~= seq![digit_char(n as nat)]);
    }
    r
}

/// Writes a number in decimal digits.
fn decimal(n: usize) -> (r: String)
    ensures
        r@ == decimal_text(n as nat),
    decreases n,
{
    if n < 10 {
        digit_text(n).to_owned()
    } else {
        let mut text = decimal(n / 10);
        text.append(digit_text(n % 10));
        text
    }
}

impl Grid {
    /// The dimensions of the grid and the maze itself in simple ASCII graphics.
    pub fn to_string(&self) -> (r: String)
        requires
            self.wf(),
        ensures
            r@ == grid_text(self),
    {
        let mut text = "Grid(".to_owned();
        text.append(decimal(self.num_rows()).as_str());
        text.append("x");
        text.append(decimal(self.num_cols()).as_str());
        text.append(")\n");
        let renderer = TextGridRenderer::new();
        proof {
            lemma_widest_bound(Seq::<Option<String>>::empty(), self.size(), 0);
        }
        text.append(renderer.render(self).as_str());
        text.append("\n");
        text
    }
}

} // verus!
