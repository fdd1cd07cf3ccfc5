use vstd::prelude::*;
use rand::rngs::StdRng;
use crate::cell::{adjacency_of, is_hazard, Cell, CellContent};
use crate::grid::{inside, shift, Grid, GridView};
use crate::random::draw_below;

verus! {

/// 1 when `(r, c)` lies inside and holds `v`, else 0.
pub open spec fn content_at(g: GridView, r: int, c: int, v: CellContent) -> nat {
    if g.inside(r, c) && g.cell(r, c).content == v { 1 } else { 0 }
}

/// How many of the eight cells around `(r, c)` lie inside and hold `v`.
pub open spec fn neighbors_with(g: GridView, r: int, c: int, v: CellContent) -> nat {
    content_at(g, r - 1, c - 1, v) + content_at(g, r - 1, c, v) + content_at(g, r - 1, c + 1, v)
        + content_at(g, r, c - 1, v) + content_at(g, r, c + 1, v)
        + content_at(g, r + 1, c - 1, v) + content_at(g, r + 1, c, v) + content_at(g, r + 1, c + 1, v)
}

/// Every cell that is no hazard is a number that counts the adjacent hazards.
pub open spec fn counts_consistent(g: Grid) -> bool {
    forall|r: int, c: int| #![trigger g.cell(r, c)]
        g.inside(r, c) && !is_hazard(g.cell(r, c).content) ==> g.cell(r, c).content is Number
            && adjacency_of(g.cell(r, c).content) == neighbors_with(g@, r, c, CellContent::Mine)
}

proof fn lemma_same_mines_same_counts(g1: GridView, g2: GridView, r: int, c: int)
    requires
        g1.rows == g2.rows,
        g1.cols == g2.cols,
        forall|r2: int, c2: int| #![trigger g2.cell(r2, c2)]
            g1.inside(r2, c2) ==> (g1.cell(r2, c2).content == CellContent::Mine) == (g2.cell(r2, c2).content == CellContent::Mine),
    ensures
        neighbors_with(g1, r, c, CellContent::Mine) == neighbors_with(g2, r, c, CellContent::Mine),
{
    assert(g2.cell(r - 1, c - 1) == g2.cell(r - 1, c - 1));
    assert(g2.cell(r - 1, c) == g2.cell(r - 1, c));
    assert(g2.cell(r - 1, c + 1) == g2.cell(r - 1, c + 1));
    assert(g2.cell(r, c - 1) == g2.cell(r, c - 1));
    assert(g2.cell(r, c + 1) == g2.cell(r, c + 1));
    assert(g2.cell(r + 1, c - 1) == g2.cell(r + 1, c - 1));
    assert(g2.cell(r + 1, c) == g2.cell(r + 1, c));
    assert(g2.cell(r + 1, c + 1) == g2.cell(r + 1, c + 1));
}

impl Grid {
    /// 1 when the neighbour `(row + dr - 1, col + dc - 1)` lies inside and
    /// holds `variant`, else 0.
    fn content_at_offset(&self, row: usize, col: usize, dr: usize, dc: usize, variant: CellContent) -> (n: u8)
        requires
            self.wf(),
            dr <= 2,
            dc <= 2,
        ensures
            n as nat == content_at(self@, row + dr - 1, col + dc - 1, variant),
    {
        match (shift(row, dr, self.rows), shift(col, dc, self.cols)) {
            (Some(r), Some(c)) => if self.cell_at(r, c).content == variant { 1 } else { 0 },
            _ => 0,
        }
    }

    /// How many of the eight cells around `(row, col)` lie inside and hold
    /// `variant`; `(row, col)` itself may lie outside.
    pub fn count_adjacent(&self, row: usize, col: usize, variant: CellContent) -> (n: u8)
        requires
            self.wf(),
        ensures
            n as nat == neighbors_with(self@, row as int, col as int, variant),
    {
        self.content_at_offset(row, col, 0, 0, variant) + self.content_at_offset(row, col, 0, 1, variant)
            + self.content_at_offset(row, col, 0, 2, variant) + self.content_at_offset(row, col, 1, 0, variant)
            + self.content_at_offset(row, col, 1, 2, variant) + self.content_at_offset(row, col, 2, 0, variant)
            + self.content_at_offset(row, col, 2, 1, variant) + self.content_at_offset(row, col, 2, 2, variant)
    }

    /// A hidden minefield: a mine at each listed position inside the grid,
    /// and elsewhere the count of adjacent mines.
    pub fn minefield(rows: usize, cols: usize, mines: &Vec<(usize, usize)>) -> (g: Grid)
        requires
            rows * cols <= usize::MAX,
        ensures
            g.wf(),
            g.rows == rows,
            g.cols == cols,
            counts_consistent(g),
            forall|r: int, c: int| #![trigger g.cell(r, c)]
                g.inside(r, c) ==> !g.cell(r, c).revealed
                    && (is_hazard(g.cell(r, c).content) <==> mines@.contains((r as usize, c as usize))),
    {
        let mut g = Grid::filled(rows, cols, Cell { content: CellContent::Number(0), revealed: false });
        let mut k: usize = 0;
        while k < mines.len()
            invariant
                g.wf(),
                g.rows == rows,
                g.cols == cols,
                0 <= k <= mines@.len(),
                forall|r: int, c: int| #![trigger g.cell(r, c)]
                    g.inside(r, c) ==> !g.cell(r, c).revealed
                        && (g.cell(r, c).content == CellContent::Mine || g.cell(r, c).content == CellContent::Number(0))
                        && (is_hazard(g.cell(r, c).content) <==> mines@.take(k as int).contains((r as usize, c as usize))),
            decreases mines@.len() - k,
        {
            let (r, c) = mines[k];
            let ghost before = g;
            proof {
                assert(mines@.take(k + 1) =~= mines@.take(k as int).push((r, c)));
            }
            if r < rows && c < cols {
                g.set_cell(r, c, Cell { content: CellContent::Mine, revealed: false });
            }
            proof {
                assert forall|r2: int, c2: int| #![trigger g.cell(r2, c2)]
                    g.inside(r2, c2) implies (is_hazard(g.cell(r2, c2).content) <==> mines@.take(k + 1).contains((r2 as usize, c2 as usize))) by {
                    let x = (r2 as usize, c2 as usize);
                    if mines@.take(k as int).contains(x) {
                        let j = choose|j: int| 0 <= j < k && #[trigger] mines@.take(k as int)[j] == x;
                        assert(mines@.take(k + 1)[j] == x);
                    }
                    if x == (r, c) {
                        assert(mines@.take(k + 1)[k as int] == x);
                    }
                    if mines@.take(k + 1).contains(x) {
                        let j = choose|j: int| 0 <= j < k + 1 && #[trigger] mines@.take(k + 1)[j] == x;
                        if j < k {
                            assert(mines@.take(k as int)[j] == x);
                        }
                    }
                    assert(before.cell(r2, c2) == before.cell(r2, c2));
                }
            }
            k = k + 1;
        }
        proof {
            assert(mines@.take(mines@.len() as int) =~= mines@);
        }
        let ghost placed = g;
        let mut row: usize = 0;
        while row < rows
            invariant
                g.wf(),
                placed.wf(),
                g.rows == rows,
                g.cols == cols,
                placed.rows == rows,
                placed.cols == cols,
                0 <= row <= rows,
                forall|r: int, c: int| #![trigger g.cell(r, c)]
                    g.inside(r, c) ==> !g.cell(r, c).revealed
                        && (is_hazard(g.cell(r, c).content) == is_hazard(placed.cell(r, c).content))
                        && (is_hazard(g.cell(r, c).content) ==> g.cell(r, c).content == CellContent::Mine)
                        && (is_hazard(g.cell(r, c).content) <==> mines@.contains((r as usize, c as usize))),
                forall|r: int, c: int| #![trigger g.cell(r, c)]
                    g.inside(r, c) && r < row && !is_hazard(g.cell(r, c).content) ==> g.cell(r, c).content is Number
                        && adjacency_of(g.cell(r, c).content) == neighbors_with(placed@, r, c, CellContent::Mine),
                forall|r: int, c: int| #![trigger placed.cell(r, c)]
                    placed.inside(r, c) && is_hazard(placed.cell(r, c).content) ==> placed.cell(r, c).content == CellContent::Mine,
            decreases rows - row,
        {
            let mut col: usize = 0;
            while col < cols
                invariant
                    g.wf(),
                    placed.wf(),
                    g.rows == rows,
                    g.cols == cols,
                    placed.rows == rows,
                    placed.cols == cols,
                    0 <= row < rows,
                    0 <= col <= cols,
                    forall|r: int, c: int| #![trigger g.cell(r, c)]
                        g.inside(r, c) ==> !g.cell(r, c).revealed
                            && (is_hazard(g.cell(r, c).content) == is_hazard(placed.cell(r, c).content))
                            && (is_hazard(g.cell(r, c).content) ==> g.cell(r, c).content == CellContent::Mine)
                            && (is_hazard(g.cell(r, c).content) <==> mines@.contains((r as usize, c as usize))),
                    forall|r: int, c: int| #![trigger g.cell(r, c)]
                        g.inside(r, c) && (r < row || (r == row && c < col)) && !is_hazard(g.cell(r, c).content)
                            ==> g.cell(r, c).content is Number
                            && adjacency_of(g.cell(r, c).content) == neighbors_with(placed@, r, c, CellContent::Mine),
                    forall|r: int, c: int| #![trigger placed.cell(r, c)]
                        placed.inside(r, c) && is_hazard(placed.cell(r, c).content) ==> placed.cell(r, c).content == CellContent::Mine,
                decreases cols - col,
            {
                if !g.cell_at(row, col).is_mine() {
                    proof {
                        assert forall|r2: int, c2: int| #![trigger placed@.cell(r2, c2)]
                            g@.inside(r2, c2) implies (g@.cell(r2, c2).content == CellContent::Mine) == (placed@.cell(r2, c2).content == CellContent::Mine) by {
                            assert(g.cell(r2, c2) == g@.cell(r2, c2));
                            assert(placed.cell(r2, c2) == placed@.cell(r2, c2));
                        }
                        lemma_same_mines_same_counts(g@, placed@, row as int, col as int);
                    }
                    let n = g.count_adjacent(row, col, CellContent::Mine);
                    g.set_cell(row, col, Cell { content: CellContent::Number(n), revealed: false });
                }
                col = col + 1;
            }
            row = row + 1;
        }
        proof {
            assert forall|r: int, c: int| #![trigger g.cell(r, c)]
                g.inside(r, c) && !is_hazard(g.cell(r, c).content) implies g.cell(r, c).content is Number
                    && adjacency_of(g.cell(r, c).content) == neighbors_with(g@, r, c, CellContent::Mine) by {
                assert forall|r2: int, c2: int| #![trigger placed@.cell(r2, c2)]
                    g@.inside(r2, c2) implies (g@.cell(r2, c2).content == CellContent::Mine) == (placed@.cell(r2, c2).content == CellContent::Mine) by {
                    assert(g.cell(r2, c2) == g@.cell(r2, c2));
                    assert(placed.cell(r2, c2) == placed@.cell(r2, c2));
                }
                lemma_same_mines_same_counts(g@, placed@, r, c);
            }
        }
        g
    }
}

/// Whether `a` comes before `b` in row-major order.
pub open spec fn before_in_order(a: (int, int), b: (int, int)) -> bool {
    a.0 < b.0 || (a.0 == b.0 && a.1 < b.1)
}

/// Every position of a `rows` by `cols` grid but `skip`, in row-major order.
fn positions_except(rows: usize, cols: usize, skip: (usize, usize)) -> (v: Vec<(usize, usize)>)
    requires
        rows * cols <= usize::MAX,
        inside(rows as int, cols as int, skip.0 as int, skip.1 as int),
    ensures
        v@.len() == rows * cols - 1,
        v@.no_duplicates(),
        forall|k: int| 0 <= k < v@.len() ==> inside(rows as int, cols as int, (#[trigger] v@[k]).0 as int, v@[k].1 as int) && v@[k] != skip,
{
    let mut v: Vec<(usize, usize)> = Vec::new();
    let mut row: usize = 0;
    while row < rows
        invariant
            rows * cols <= usize::MAX,
            inside(rows as int, cols as int, skip.0 as int, skip.1 as int),
            0 <= row <= rows,
            v@.len() == row * cols - (if skip.0 < row { 1int } else { 0int }),
            v@.no_duplicates(),
            forall|k: int| 0 <= k < v@.len() ==> inside(rows as int, cols as int, (#[trigger] v@[k]).0 as int, v@[k].1 as int)
                && v@[k] != skip && (v@[k].0 as int) < row,
        decreases rows - row,
    {
        let mut col: usize = 0;
        proof {
            assert(row * cols + cols <= rows * cols) by (nonlinear_arith)
                requires row < rows, 0 <= cols;
        }
        while col < cols
            invariant
                rows * cols <= usize::MAX,
                row * cols + cols <= rows * cols,
                inside(rows as int, cols as int, skip.0 as int, skip.1 as int),
                0 <= row < rows,
                0 <= col <= cols,
                v@.len() == row * cols + col - (if before_in_order((skip.0 as int, skip.1 as int), (row as int, col as int)) { 1int } else { 0int }),
                v@.no_duplicates(),
                forall|k: int| 0 <= k < v@.len() ==> inside(rows as int, cols as int, (#[trigger] v@[k]).0 as int, v@[k].1 as int)
                    && v@[k] != skip && before_in_order((v@[k].0 as int, v@[k].1 as int), (row as int, col as int)),
            decreases cols - col,
        {
            if row != skip.0 || col != skip.1 {
                let ghost old_v = v@;
                v.push((row, col));
                proof {
                    assert forall|i: int, j: int| 0 <= i < v@.len() && 0 <= j < v@.len() && i != j implies v@[i] != v@[j] by {
                        if i < old_v.len() && j < old_v.len() {
                            assert(old_v[i] != old_v[j]);
                        } else if i < old_v.len() {
                            assert(before_in_order((old_v[i].0 as int, old_v[i].1 as int), (row as int, col as int)));
                        } else if j < old_v.len() {
                            assert(before_in_order((old_v[j].0 as int, old_v[j].1 as int), (row as int, col as int)));
                        }
                    }
                }
            }
            col = col + 1;
        }
        proof {
            assert((row + 1) * cols == row * cols + cols) by (nonlinear_arith);
        }
        row = row + 1;
    }
    proof {
        assert(rows * cols >= 1) by (nonlinear_arith)
            requires skip.0 < rows, skip.1 < cols;
    }
    v
}

/// `mine_count` distinct random positions inside a `rows` by `cols` grid,
/// none of them `first`.
fn pick_mines(rows: usize, cols: usize, first: (usize, usize), mine_count: usize, rng: &mut StdRng) -> (mines: Vec<(usize, usize)>)
    requires
        rows * cols <= usize::MAX,
        inside(rows as int, cols as int, first.0 as int, first.1 as int),
        mine_count < rows * cols,
    ensures
        mines@.len() == mine_count,
        mines@.no_duplicates(),
        forall|k: int| 0 <= k < mines@.len() ==> inside(rows as int, cols as int, (#[trigger] mines@[k]).0 as int, mines@[k].1 as int)
            && mines@[k] != first,
{
    let mut candidates = positions_except(rows, cols, first);
    let mut mines: Vec<(usize, usize)> = Vec::new();
    while mines.len() < mine_count
        invariant
            mine_count < rows * cols,
            mines@.len() <= mine_count,
            candidates@.len() + mines@.len() == rows * cols - 1,
            candidates@.no_duplicates(),
            mines@.no_duplicates(),
            forall|k: int| 0 <= k < candidates@.len() ==> inside(rows as int, cols as int, (#[trigger] candidates@[k]).0 as int, candidates@[k].1 as int)
                && candidates@[k] != first,
            forall|k: int| 0 <= k < mines@.len() ==> inside(rows as int, cols as int, (#[trigger] mines@[k]).0 as int, mines@[k].1 as int)
                && mines@[k] != first,
            forall|i: int, j: int| 0 <= i < candidates@.len() && 0 <= j < mines@.len() ==> candidates@[i] != mines@[j],
        decreases mine_count - mines@.len(),
    {
        let j = draw_below(rng, candidates.len() as u64) as usize;
        let ghost old_c = candidates@;
        let ghost old_m = mines@;
        let pos = candidates.swap_remove(j);
        proof {
            assert forall|i: int| 0 <= i < candidates@.len() implies #[trigger] candidates@[i] == if i == j { old_c.last() } else { old_c[i] } by {}
        }
        mines.push(pos);
        proof {
            assert forall|a: int, b: int| 0 <= a < candidates@.len() && 0 <= b < candidates@.len() && a != b implies candidates@[a] != candidates@[b] by {
                let ia = if a == j { old_c.len() - 1 } else { a };
                let ib = if b == j { old_c.len() - 1 } else { b };
                assert(candidates@[a] == old_c[ia]);
                assert(candidates@[b] == old_c[ib]);
            }
            assert forall|a: int, b: int| 0 <= a < mines@.len() && 0 <= b < mines@.len() && a != b implies mines@[a] != mines@[b] by {
                if a < old_m.len() && b < old_m.len() {
                    assert(mines@[a] == old_m[a] && mines@[b] == old_m[b]);
                } else if a < old_m.len() {
                    assert(mines@[a] == old_m[a]);
                    assert(old_c[j as int] != old_m[a]);
                } else if b < old_m.len() {
                    assert(mines@[b] == old_m[b]);
                    assert(old_c[j as int] != old_m[b]);
                }
            }
            assert forall|k: int| 0 <= k < mines@.len() implies inside(rows as int, cols as int, (#[trigger] mines@[k]).0 as int, mines@[k].1 as int)
                && mines@[k] != first by {
                if k < old_m.len() {
                    assert(mines@[k] == old_m[k]);
                } else {
                    assert(old_c[j as int] == pos);
                }
            }
            assert forall|a: int, b: int| 0 <= a < candidates@.len() && 0 <= b < mines@.len() implies candidates@[a] != mines@[b] by {
                let ia = if a == j { old_c.len() - 1 } else { a };
                assert(candidates@[a] == old_c[ia]);
                if b < old_m.len() {
                    assert(mines@[b] == old_m[b]);
                } else {
                    assert(mines@[b] == old_c[j as int]);
                }
            }
            assert forall|k: int| 0 <= k < candidates@.len() implies inside(rows as int, cols as int, (#[trigger] candidates@[k]).0 as int, candidates@[k].1 as int)
                && candidates@[k] != first by {
                let ik = if k == j { old_c.len() - 1 } else { k };
                assert(candidates@[k] == old_c[ik]);
            }
        }
    }
    mines
}

/// A hidden minefield with `mine_count` mines at random, none at `first`, the
/// cell revealed first; every other cell counts its adjacent mines.
pub fn spawn_mines(rows: usize, cols: usize, first: (usize, usize), mine_count: usize, rng: &mut StdRng) -> (g: Grid)
    requires
        rows * cols <= usize::MAX,
        inside(rows as int, cols as int, first.0 as int, first.1 as int),
        mine_count < rows * cols,
    ensures
        g.wf(),
        g.rows == rows,
        g.cols == cols,
        counts_consistent(g),
        !is_hazard(g.cell(first.0 as int, first.1 as int).content),
        forall|r: int, c: int| #![trigger g.cell(r, c)] g.inside(r, c) ==> !g.cell(r, c).revealed,
        exists|mines: Seq<(usize, usize)>|
            mines.len() == mine_count && mines.no_duplicates() && forall|r: int, c: int|
                #![trigger g.cell(r, c)]
                g.inside(r, c) ==> (is_hazard(g.cell(r, c).content) <==> mines.contains((r as usize, c as usize))),
{
    let mines = pick_mines(rows, cols, first, mine_count, rng);
    let g = Grid::minefield(rows, cols, &mines);
    proof {
        assert(g.cell(first.0 as int, first.1 as int) == g.cell(first.0 as int, first.1 as int));
        if mines@.contains(first) {
            let k = choose|k: int| 0 <= k < mines@.len() && mines@[k] == first;
            assert(mines@[k] != first);
        }
        assert(mines@.len() == mine_count && mines@.no_duplicates());
    }
    g
}

} // verus!
