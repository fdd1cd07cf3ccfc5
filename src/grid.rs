use vstd::prelude::*;
use crate::cell::{Cell, CellContent};

verus! {

/// A rectangular grid of cells, stored row by row.
pub struct Grid {
    pub rows: usize,
    pub cols: usize,
    pub cells: Vec<Cell>,
}

/// Why a grid could not be built.
#[derive(Clone, Copy, PartialEq, Eq, Structural, Debug)]
pub enum GridError {
    /// The number of rows given differs from the declared row count.
    RowCount,
    /// Some row's length differs from the declared column count.
    ColumnCount,
}

/// Whether `(r, c)` lies inside a `rows` by `cols` grid.
pub open spec fn inside(rows: int, cols: int, r: int, c: int) -> bool {
    0 <= r < rows && 0 <= c < cols
}

/// The row-major index of `(r, c)`.
pub open spec fn flat_index(cols: int, r: int, c: int) -> int {
    r * cols + c
}

pub proof fn lemma_flat_index(rows: int, cols: int, r: int, c: int)
    requires
        inside(rows, cols, r, c),
    ensures
        0 <= flat_index(cols, r, c) < rows * cols,
{
    assert(0 <= r * cols + c < rows * cols) by (nonlinear_arith)
        requires
            0 <= r < rows,
            0 <= c < cols,
    ;
}

pub proof fn lemma_flat_index_injective(rows: int, cols: int, r1: int, c1: int, r2: int, c2: int)
    requires
        inside(rows, cols, r1, c1),
        inside(rows, cols, r2, c2),
        flat_index(cols, r1, c1) == flat_index(cols, r2, c2),
    ensures
        r1 == r2,
        c1 == c2,
{
    if r1 < r2 {
        assert(r1 * cols + c1 < r2 * cols + c2) by (nonlinear_arith)
            requires
                r1 < r2,
                0 <= c1 < cols,
                0 <= c2,
        ;
    } else if r2 < r1 {
        assert(r2 * cols + c2 < r1 * cols + c1) by (nonlinear_arith)
            requires
                r2 < r1,
                0 <= c2 < cols,
                0 <= c1,
        ;
    }
}

/// A grid as a mathematical value: its shape and its cells in row-major order.
pub struct GridView {
    pub rows: int,
    pub cols: int,
    pub cells: Seq<Cell>,
}

impl GridView {
    pub open spec fn inside(self, r: int, c: int) -> bool {
        inside(self.rows, self.cols, r, c)
    }

    /// The cell at row `r`, column `c`.
    pub open spec fn cell(self, r: int, c: int) -> Cell {
        self.cells[flat_index(self.cols, r, c)]
    }
}

impl View for Grid {
    type V = GridView;

    open spec fn view(&self) -> GridView {
        GridView { rows: self.rows as int, cols: self.cols as int, cells: self.cells@ }
    }
}

impl Grid {
    /// Every row has `cols` cells and there are `rows` rows.
    pub open spec fn wf(&self) -> bool {
        self.cells@.len() == self.rows * self.cols
    }

    pub open spec fn inside(&self, r: int, c: int) -> bool {
        self@.inside(r, c)
    }

    /// The cell at row `r`, column `c`.
    pub open spec fn cell(&self, r: int, c: int) -> Cell {
        self@.cell(r, c)
    }

    /// Builds a grid from its rows, checking the shape.
    pub fn new(rows: usize, cols: usize, cells: Vec<Vec<Cell>>) -> (res: Result<Grid, GridError>)
        ensures
            cells@.len() != rows ==> res == Err::<Grid, GridError>(GridError::RowCount),
            cells@.len() == rows && (exists|r: int| 0 <= r < rows && cells@[r]@.len() != cols)
                ==> res == Err::<Grid, GridError>(GridError::ColumnCount),
            res is Ok <==> (cells@.len() == rows && forall|r: int| 0 <= r < rows ==> cells@[r]@.len() == cols),
            res matches Ok(g) ==> g.wf() && g.rows == rows && g.cols == cols && forall|r: int, c: int|
                #![trigger g.cell(r, c)]
                g.inside(r, c) ==> g.cell(r, c) == cells@[r]@[c],
    {
        if cells.len() != rows {
            return Err(GridError::RowCount);
        }
        let mut r: usize = 0;
        while r < rows
            invariant
                cells@.len() == rows,
                0 <= r <= rows,
                forall|k: int| 0 <= k < r ==> cells@[k]@.len() == cols,
            decreases rows - r,
        {
            if cells[r].len() != cols {
                return Err(GridError::ColumnCount);
            }
            r = r + 1;
        }
        let mut flat: Vec<Cell> = Vec::new();
        let mut r: usize = 0;
        while r < rows
            invariant
                cells@.len() == rows,
                0 <= r <= rows,
                forall|k: int| 0 <= k < rows ==> cells@[k]@.len() == cols,
                flat@.len() == r * cols,
                forall|i: int, j: int|
                    #![trigger flat@[flat_index(cols as int, i, j)]]
                    0 <= i < r && 0 <= j < cols ==> flat@[flat_index(cols as int, i, j)] == cells@[i]@[j],
            decreases rows - r,
        {
            let row = &cells[r];
            let mut c: usize = 0;
            while c < cols
                invariant
                    cells@.len() == rows,
                    0 <= r < rows,
                    0 <= c <= cols,
                    row@ == cells@[r as int]@,
                    row@.len() == cols,
                    flat@.len() == r * cols + c,
                    forall|i: int, j: int|
                        #![trigger flat@[flat_index(cols as int, i, j)]]
                        (0 <= i < r && 0 <= j < cols) || (i == r && 0 <= j < c)
                        ==> flat@[flat_index(cols as int, i, j)] == cells@[i]@[j],
                decreases cols - c,
            {
                proof {
                    assert forall|i: int, j: int| (0 <= i < r && 0 <= j < cols) || (i == r && 0 <= j < c)
                        implies flat_index(cols as int, i, j) < r * cols + c by {
                        if i < r {
                            assert(i * cols + j < r * cols) by (nonlinear_arith)
                                requires 0 <= i < r, 0 <= j < cols;
                        }
                    }
                }
                flat.push(row[c]);
                c = c + 1;
            }
            proof {
                assert((r + 1) * cols == r * cols + cols) by (nonlinear_arith);
            }
            r = r + 1;
        }
        Ok(Grid { rows, cols, cells: flat })
    }

    /// A grid whose cells all equal `cell`.
    pub fn filled(rows: usize, cols: usize, cell: Cell) -> (g: Grid)
        requires
            rows * cols <= usize::MAX,
        ensures
            g.wf(),
            g.rows == rows,
            g.cols == cols,
            forall|r: int, c: int| #![trigger g.cell(r, c)] g.inside(r, c) ==> g.cell(r, c) == cell,
    {
        let n: usize = rows * cols;
        let mut flat: Vec<Cell> = Vec::new();
        let mut i: usize = 0;
        while i < n
            invariant
                0 <= i <= n,
                flat@.len() == i,
                forall|k: int| 0 <= k < i ==> flat@[k] == cell,
            decreases n - i,
        {
            flat.push(cell);
            i = i + 1;
        }
        let g = Grid { rows, cols, cells: flat };
        proof {
            assert forall|r: int, c: int| #![trigger g.cell(r, c)] g.inside(r, c) implies g.cell(r, c) == cell by {
                lemma_flat_index(rows as int, cols as int, r, c);
            }
        }
        g
    }

    /// The cell at `(row, col)`, if that lies inside the grid.
    pub fn get_cell(&self, row: usize, col: usize) -> (r: Option<&Cell>)
        requires
            self.wf(),
        ensures
            r is Some <==> self.inside(row as int, col as int),
            r matches Some(c) ==> *c == self.cell(row as int, col as int),
    {
        if row < self.rows && col < self.cols {
            let n = self.cells.len();
            proof {
                assert(0 <= row * self.cols) by (nonlinear_arith);
                lemma_flat_index(self.rows as int, self.cols as int, row as int, col as int);
            }
            Some(&self.cells[row * self.cols + col])
        } else {
            None
        }
    }

    /// The cell at `(row, col)` for changing in place, if that lies inside
    /// the grid.
    pub fn get_cell_mut(&mut self, row: usize, col: usize) -> (r: Option<&mut Cell>)
        requires
            old(self).wf(),
        ensures
            r is Some <==> old(self).inside(row as int, col as int),
            final(self).rows == old(self).rows,
            final(self).cols == old(self).cols,
            r matches Some(c) ==> *c == old(self).cell(row as int, col as int) && final(self).cells@ == old(self).cells@.update(
                flat_index(old(self).cols as int, row as int, col as int),
                *final(c),
            ),
            r is None ==> final(self).cells@ == old(self).cells@,
    {
        if row < self.rows && col < self.cols {
            let n = self.cells.len();
            proof {
                assert(0 <= row * self.cols) by (nonlinear_arith);
                lemma_flat_index(self.rows as int, self.cols as int, row as int, col as int);
            }
            let i = row * self.cols + col;
            Some(&mut self.cells[i])
        } else {
            None
        }
    }

    /// The content and visibility of the cell at `(row, col)`, if inside.
    pub fn query_cell_state(&self, row: usize, col: usize) -> (r: Option<(CellContent, bool)>)
        requires
            self.wf(),
        ensures
            r is Some <==> self.inside(row as int, col as int),
            r matches Some(s) ==> s.0 == self.cell(row as int, col as int).content
                && s.1 == self.cell(row as int, col as int).revealed,
    {
        match self.get_cell(row, col) {
            Some(c) => Some((c.content, c.revealed)),
            None => None,
        }
    }

    /// Replaces the cell at `(row, col)`.
    pub fn set_cell(&mut self, row: usize, col: usize, cell: Cell)
        requires
            old(self).wf(),
            old(self).inside(row as int, col as int),
        ensures
            final(self).wf(),
            final(self).rows == old(self).rows,
            final(self).cols == old(self).cols,
            final(self).cell(row as int, col as int) == cell,
            final(self).cells@ == old(self).cells@.update(flat_index(old(self).cols as int, row as int, col as int), cell),
            forall|r: int, c: int|
                #![trigger final(self).cell(r, c)]
                final(self).inside(r, c) && (r != row || c != col) ==> final(self).cell(r, c) == old(self).cell(r, c),
    {
        let n = self.cells.len();
        proof {
            assert(0 <= row * self.cols) by (nonlinear_arith);
            lemma_flat_index(self.rows as int, self.cols as int, row as int, col as int);
        }
        let i = row * self.cols + col;
        self.cells.set(i, cell);
        proof {
            assert forall|r: int, c: int|
                #![trigger self.cell(r, c)]
                self.inside(r, c) && (r != row || c != col) implies self.cell(r, c) == old(self).cell(r, c) by {
                lemma_flat_index(self.rows as int, self.cols as int, r, c);
                if flat_index(self.cols as int, r, c) == i {
                    lemma_flat_index_injective(self.rows as int, self.cols as int, r, c, row as int, col as int);
                }
            }
        }
    }
}

/// `x + d - 1` when that lies in `0..max`; `d` stands for an offset of -1, 0 or 1.
pub(crate) fn shift(x: usize, d: usize, max: usize) -> (r: Option<usize>)
    requires
        d <= 2,
    ensures
        match r {
            Some(y) => y == x + d - 1 && y < max,
            None => !(0 <= x + d - 1 < max),
        },
{
    if d == 0 {
        if x == 0 || x - 1 >= max { None } else { Some(x - 1) }
    } else if d == 1 {
        if x < max { Some(x) } else { None }
    } else {
        if max == 0 || x >= max - 1 { None } else { Some(x + 1) }
    }
}

} // verus!
