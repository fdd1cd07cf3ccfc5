use vstd::prelude::*;
use crate::cell::{adjacency_of, is_hazard, Cell, CellContent};
use crate::direction::{all_directions, Direction};
use crate::grid::{flat_index, lemma_flat_index, shift, Grid};
use crate::minefield::{counts_consistent, neighbors_with};
use crate::position_rule::{Distance, EdgeBehavior, PositionRule};
use crate::search::{dir_delta, direction_hits, lemma_hits_from_members, rule_hits, walk};

verus! {

/// The state of a minesweeper-style game.
#[derive(Clone, Copy, PartialEq, Eq, Structural, Debug)]
pub enum MSGameState {
    GameOver,
    Progressing,
    GameWin,
}

impl MSGameState {
    pub fn is_game_over(&self) -> (r: bool)
        ensures
            r == (*self is GameOver),
    {
        match self {
            MSGameState::GameOver => true,
            _ => false,
        }
    }
}

/// A board: the grid of cells and the state of the game on it.
pub struct MSGameBoard {
    pub grid: Grid,
    pub state: MSGameState,
}

/// Whether `q` is one of the eight cells around `p` inside the grid.
pub open spec fn adjacent(g: Grid, p: (int, int), q: (int, int)) -> bool {
    &&& g.inside(q.0, q.1)
    &&& p != q
    &&& -1 <= q.0 - p.0 <= 1
    &&& -1 <= q.1 - p.1 <= 1
}

/// Whether revealing this cell carries the reveal on to its neighbours: it is
/// no hazard and shows a count of zero.
pub open spec fn spreads(c: Cell) -> bool {
    !is_hazard(c.content) && adjacency_of(c.content) == 0
}

/// `path` is a cascade from `p` over grid `g`: it starts at `p`, every cell
/// on it lies inside and is hidden, each next cell neighbours the one before,
/// and every cell but the last spreads.
pub open spec fn cascade_path(g: Grid, p: (int, int), path: Seq<(int, int)>) -> bool {
    &&& path.len() > 0
    &&& path[0] == p
    &&& forall|i: int| 0 <= i < path.len() ==> g.inside(#[trigger] path[i].0, path[i].1) && !g.cell(path[i].0, path[i].1).revealed
    &&& forall|i: int| 0 <= i < path.len() - 1 ==> spreads(g.cell(#[trigger] path[i].0, path[i].1)) && adjacent(g, path[i], path[i + 1])
}

/// `q` is revealed by the cascade that a reveal at `p` starts on `g`.
pub open spec fn cascade(g: Grid, p: (int, int), q: (int, int)) -> bool {
    exists|path: Seq<(int, int)>| cascade_path(g, p, path) && path.last() == q
}

/// `g1` is `g0` after a reveal at `p`: same shape and contents, and a cell is
/// revealed exactly when it already was or the cascade reaches it.
pub open spec fn reveal_post(g0: Grid, p: (int, int), g1: Grid) -> bool {
    &&& g1.wf()
    &&& g1.rows == g0.rows
    &&& g1.cols == g0.cols
    &&& forall|r: int, c: int|
        #![trigger g1.cell(r, c)]
        g1.inside(r, c) ==> g1.cell(r, c).content == g0.cell(r, c).content && g1.cell(r, c).revealed == (
        g0.cell(r, c).revealed || cascade(g0, p, (r, c)))
}

/// Whether the cascade from `p` on `g` reaches a hazard.
pub open spec fn cascade_hits_hazard(g: Grid, p: (int, int)) -> bool {
    exists|q: (int, int)| cascade(g, p, q) && is_hazard(#[trigger] g.cell(q.0, q.1).content)
}

/// Every cell that is no hazard is revealed.
pub open spec fn all_safe_revealed(g: Grid) -> bool {
    forall|r: int, c: int| #![trigger g.cell(r, c)] g.inside(r, c) ==> is_hazard(g.cell(r, c).content) || g.cell(r, c).revealed
}

/// The state after the win check: a lost game stays lost; otherwise the game
/// is won once every safe cell is revealed.
pub open spec fn win_checked(g: Grid, s: MSGameState) -> MSGameState {
    if s is GameOver {
        s
    } else if all_safe_revealed(g) {
        MSGameState::GameWin
    } else {
        s
    }
}

/// The state after a reveal at `p` took grid `g0` in state `s0` to `g1`.
pub open spec fn state_after(g0: Grid, p: (int, int), g1: Grid, s0: MSGameState) -> MSGameState {
    if g0.cell(p.0, p.1).revealed {
        s0
    } else if cascade_hits_hazard(g0, p) {
        MSGameState::GameOver
    } else {
        win_checked(g1, s0)
    }
}

/// The number of hidden cells.
pub open spec fn hidden_count(s: Seq<Cell>) -> nat
    decreases s.len(),
{
    if s.len() == 0 {
        0
    } else {
        hidden_count(s.drop_last()) + if s.last().revealed { 0nat } else { 1nat }
    }
}

proof fn lemma_hidden_count_reveal(s: Seq<Cell>, i: int, c: Cell)
    requires
        0 <= i < s.len(),
        !s[i].revealed,
        c.revealed,
    ensures
        hidden_count(s.update(i, c)) + 1 == hidden_count(s),
    decreases s.len(),
{
    if i < s.len() - 1 {
        lemma_hidden_count_reveal(s.drop_last(), i, c);
        assert(s.update(i, c).drop_last() =~= s.drop_last().update(i, c));
    } else {
        assert(s.update(i, c).drop_last() =~= s.drop_last());
    }
}

/// Every cell that a cascade reaches lies inside and was hidden.
proof fn lemma_reach_hidden(g: Grid, p: (int, int), q: (int, int))
    requires
        cascade(g, p, q),
    ensures
        g.inside(q.0, q.1),
        !g.cell(q.0, q.1).revealed,
{
    let path = choose|path: Seq<(int, int)>| cascade_path(g, p, path) && path.last() == q;
    assert(path[path.len() - 1] == q);
}

/// A cascade from a revealed cell reaches nothing.
proof fn lemma_no_reach_from_revealed(g: Grid, p: (int, int), q: (int, int))
    requires
        g.cell(p.0, p.1).revealed,
    ensures
        !cascade(g, p, q),
{
    if cascade(g, p, q) {
        let path = choose|path: Seq<(int, int)>| cascade_path(g, p, path) && path.last() == q;
        assert(path[0] == p);
    }
}

/// Every cell on a cascade path from `p` on `g0` is revealed in `g1`, given
/// that `g1` reveals `p` and every neighbour of each newly revealed cell that
/// spreads.
proof fn lemma_cascade_complete(g0: Grid, g1: Grid, p: (int, int), path: Seq<(int, int)>, i: int)
    requires
        g1.rows == g0.rows,
        g1.cols == g0.cols,
        cascade_path(g0, p, path),
        0 <= i < path.len(),
        g1.cell(p.0, p.1).revealed,
        forall|r: int, c: int, r2: int, c2: int|
            g0.inside(r, c) && #[trigger] g1.cell(r, c).revealed && !g0.cell(r, c).revealed && spreads(g0.cell(r, c))
                && adjacent(g0, (r, c), (r2, c2)) ==> #[trigger] g1.cell(r2, c2).revealed,
    ensures
        g1.cell(path[i].0, path[i].1).revealed,
    decreases i,
{
    if i > 0 {
        lemma_cascade_complete(g0, g1, p, path, i - 1);
        let m = path[i - 1];
        assert(g0.inside(m.0, m.1) && !g0.cell(m.0, m.1).revealed);
        assert(spreads(g0.cell(m.0, m.1)) && adjacent(g0, m, path[i]));
    }
}

/// One step of a cascade: a hidden neighbour of a reached cell that spreads
/// is reached too.
proof fn lemma_cascade_step(g0: Grid, p: (int, int), m: (int, int), q: (int, int))
    requires
        cascade(g0, p, m),
        spreads(g0.cell(m.0, m.1)),
        adjacent(g0, m, q),
        !g0.cell(q.0, q.1).revealed,
    ensures
        cascade(g0, p, q),
{
    let path = choose|path: Seq<(int, int)>| cascade_path(g0, p, path) && path.last() == m;
    let longer = path.push(q);
    assert(longer[longer.len() - 2] == m);
    assert forall|i: int| 0 <= i < longer.len() implies g0.inside(#[trigger] longer[i].0, longer[i].1) && !g0.cell(longer[i].0, longer[i].1).revealed by {
        if i < path.len() {
            assert(longer[i] == path[i]);
        }
    }
    assert forall|i: int| 0 <= i < longer.len() - 1 implies spreads(g0.cell(#[trigger] longer[i].0, longer[i].1)) && adjacent(g0, longer[i], longer[i + 1]) by {
        if i < path.len() - 1 {
            assert(longer[i] == path[i]);
            assert(longer[i + 1] == path[i + 1]);
        }
    }
    assert(cascade_path(g0, p, longer) && longer.last() == q);
}

impl Grid {
    /// Marks the cell at `(row, col)` revealed.
    pub fn uncover_cell(&mut self, row: usize, col: usize)
        requires
            old(self).wf(),
            old(self).inside(row as int, col as int),
        ensures
            final(self).wf(),
            final(self).rows == old(self).rows,
            final(self).cols == old(self).cols,
            final(self).cell(row as int, col as int).revealed,
            final(self).cell(row as int, col as int).content == old(self).cell(row as int, col as int).content,
            forall|r: int, c: int|
                #![trigger final(self).cell(r, c)]
                final(self).inside(r, c) && (r != row || c != col) ==> final(self).cell(r, c) == old(self).cell(r, c),
            !old(self).cell(row as int, col as int).revealed ==> hidden_count(final(self).cells@) + 1 == hidden_count(
                old(self).cells@,
            ),
    {
        let mut cell = self.cell_at(row, col);
        cell.revealed = true;
        proof {
            lemma_flat_index(self.rows as int, self.cols as int, row as int, col as int);
            if !old(self).cell(row as int, col as int).revealed {
                lemma_hidden_count_reveal(self.cells@, flat_index(self.cols as int, row as int, col as int), cell);
            }
        }
        self.set_cell(row, col, cell);
    }

    /// Whether every cell that is no hazard is revealed.
    pub fn all_safe_revealed(&self) -> (r: bool)
        requires
            self.wf(),
        ensures
            r == all_safe_revealed(*self),
    {
        let mut row: usize = 0;
        while row < self.rows
            invariant
                self.wf(),
                0 <= row <= self.rows,
                forall|r: int, c: int| #![trigger self.cell(r, c)]
                    0 <= r < row && 0 <= c < self.cols ==> is_hazard(self.cell(r, c).content) || self.cell(r, c).revealed,
            decreases self.rows - row,
        {
            let mut col: usize = 0;
            while col < self.cols
                invariant
                    self.wf(),
                    0 <= row < self.rows,
                    0 <= col <= self.cols,
                    forall|r: int, c: int| #![trigger self.cell(r, c)]
                        (0 <= r < row && 0 <= c < self.cols) || (r == row && 0 <= c < col)
                        ==> is_hazard(self.cell(r, c).content) || self.cell(r, c).revealed,
                decreases self.cols - col,
            {
                let cell = self.cell_at(row, col);
                if !cell.is_mine() && !cell.revealed {
                    return false;
                }
                col = col + 1;
            }
            row = row + 1;
        }
        true
    }
}

fn is_mine_content(c: CellContent) -> (r: bool)
    ensures
        r == is_hazard(c),
{
    match c {
        CellContent::Mine => true,
        _ => false,
    }
}

impl MSGameBoard {
    /// Sets the state to won when every safe cell is revealed, unless the
    /// game is already lost.
    pub fn check_win_condition(&mut self)
        requires
            old(self).grid.wf(),
        ensures
            final(self).grid == old(self).grid,
            final(self).state == win_checked(old(self).grid, old(self).state),
    {
        if self.state.is_game_over() {
            return;
        }
        if self.grid.all_safe_revealed() {
            self.state = MSGameState::GameWin;
        }
    }

    /// Reveals the neighbour `(r, c)` if it is hidden, and queues it.
    fn visit(&mut self, r: usize, c: usize, pending: &mut Vec<(usize, usize)>, hit: &mut bool)
        requires
            old(self).grid.wf(),
            old(self).grid.inside(r as int, c as int),
        ensures
            final(self).state == old(self).state,
            old(self).grid.cell(r as int, c as int).revealed ==> final(self).grid == old(self).grid
                && final(pending)@ == old(pending)@ && *final(hit) == *old(hit),
            !old(self).grid.cell(r as int, c as int).revealed ==> {
                &&& final(self).grid.wf()
                &&& final(self).grid.rows == old(self).grid.rows
                &&& final(self).grid.cols == old(self).grid.cols
                &&& final(self).grid.cell(r as int, c as int).revealed
                &&& final(self).grid.cell(r as int, c as int).content == old(self).grid.cell(r as int, c as int).content
                &&& forall|r2: int, c2: int|
                    #![trigger final(self).grid.cell(r2, c2)]
                    final(self).grid.inside(r2, c2) && (r2 != r || c2 != c) ==> final(self).grid.cell(r2, c2)
                        == old(self).grid.cell(r2, c2)
                &&& hidden_count(final(self).grid.cells@) + 1 == hidden_count(old(self).grid.cells@)
                &&& final(pending)@ == old(pending)@.push((r, c))
                &&& *final(hit) == (*old(hit) || is_hazard(old(self).grid.cell(r as int, c as int).content))
            },
    {
        let cell = self.grid.cell_at(r, c);
        if !cell.revealed {
            self.grid.uncover_cell(r, c);
            pending.push((r, c));
            if is_mine_content(cell.content) {
                *hit = true;
            }
        }
    }

    /// Reveals the cell at `(row, col)` and cascades from it: a revealed cell
    /// that is no hazard and shows zero reveals its hidden neighbours in
    /// turn. A hazard ends the game; otherwise the win is checked once. A cell
    /// that is already revealed leaves everything unchanged.
    pub fn reveal_cell(&mut self, row: usize, col: usize)
        requires
            old(self).grid.wf(),
            old(self).grid.inside(row as int, col as int),
        ensures
            reveal_post(old(self).grid, (row as int, col as int), final(self).grid),
            final(self).state == state_after(old(self).grid, (row as int, col as int), final(self).grid, old(self).state),
    {
        let ghost g0 = self.grid;
        let ghost p = (row as int, col as int);
        let start = self.grid.cell_at(row, col);
        if start.revealed {
            proof {
                assert forall|q: (int, int)| !cascade(g0, p, q) by {
                    lemma_no_reach_from_revealed(g0, p, q);
                }
            }
            return;
        }
        proof {
            assert(cascade_path(g0, p, seq![p]) && seq![p].last() == p);
        }
        let mut hit = is_mine_content(start.content);
        self.grid.uncover_cell(row, col);
        let mut pending: Vec<(usize, usize)> = Vec::new();
        pending.push((row, col));
        proof {
            assert forall|r: int, c: int| #![trigger self.grid.cell(r, c)]
                self.grid.inside(r, c) && self.grid.cell(r, c).revealed && !g0.cell(r, c).revealed
                implies (r, c) == p by {}
            assert(pending@[0] == (row, col));
        }
        while pending.len() > 0
            invariant
                self.grid.wf(),
                self.grid.rows == g0.rows,
                self.grid.cols == g0.cols,
                g0.wf(),
                g0.inside(p.0, p.1),
                !g0.cell(p.0, p.1).revealed,
                self.state == old(self).state,
                g0 == old(self).grid,
                forall|r: int, c: int| #![trigger self.grid.cell(r, c)]
                    self.grid.inside(r, c) ==> self.grid.cell(r, c).content == g0.cell(r, c).content
                        && (g0.cell(r, c).revealed ==> self.grid.cell(r, c).revealed)
                        && (self.grid.cell(r, c).revealed && !g0.cell(r, c).revealed ==> cascade(g0, p, (r, c))),
                self.grid.cell(p.0, p.1).revealed,
                forall|i: int| 0 <= i < pending@.len() ==> {
                    let m = #[trigger] pending@[i];
                    self.grid.inside(m.0 as int, m.1 as int) && self.grid.cell(m.0 as int, m.1 as int).revealed
                        && !g0.cell(m.0 as int, m.1 as int).revealed
                },
                forall|r: int, c: int, r2: int, c2: int|
                    self.grid.inside(r, c) && #[trigger] self.grid.cell(r, c).revealed && !g0.cell(r, c).revealed
                        && spreads(g0.cell(r, c)) && !pending@.contains((r as usize, c as usize))
                        && adjacent(g0, (r, c), (r2, c2)) ==> #[trigger] self.grid.cell(r2, c2).revealed,
                hit == exists|r: int, c: int| #![trigger self.grid.cell(r, c)]
                    self.grid.inside(r, c) && self.grid.cell(r, c).revealed && !g0.cell(r, c).revealed
                        && is_hazard(g0.cell(r, c).content),
            decreases 10 * hidden_count(self.grid.cells@) + pending@.len(),
        {
            let ghost before = pending@;
            let m = pending.pop().unwrap();
            proof {
                assert(pending@ =~= before.drop_last());
                assert(m == before[before.len() - 1]);
                assert forall|x: (usize, usize)| before.contains(x) && x != m implies pending@.contains(x) by {
                    let j = choose|j: int| 0 <= j < before.len() && before[j] == x;
                    assert(pending@[j] == x);
                }
            }
            let ghost measure = 10 * hidden_count(self.grid.cells@) + pending@.len();
            let here = self.grid.cell_at(m.0, m.1);
            if here.adjacency() == 0 && !here.is_mine() {
                let mut k: usize = 0;
                while k < 9
                    invariant
                        0 <= k <= 9,
                        self.grid.wf(),
                        self.grid.rows == g0.rows,
                        self.grid.cols == g0.cols,
                        g0.wf(),
                        g0.inside(p.0, p.1),
                        !g0.cell(p.0, p.1).revealed,
                        self.state == old(self).state,
                        g0 == old(self).grid,
                        forall|r: int, c: int| #![trigger self.grid.cell(r, c)]
                            self.grid.inside(r, c) ==> self.grid.cell(r, c).content == g0.cell(r, c).content
                                && (g0.cell(r, c).revealed ==> self.grid.cell(r, c).revealed)
                                && (self.grid.cell(r, c).revealed && !g0.cell(r, c).revealed ==> cascade(g0, p, (r, c))),
                        self.grid.cell(p.0, p.1).revealed,
                        self.grid.inside(m.0 as int, m.1 as int),
                        self.grid.cell(m.0 as int, m.1 as int).revealed,
                        !g0.cell(m.0 as int, m.1 as int).revealed,
                        spreads(g0.cell(m.0 as int, m.1 as int)),
                        forall|i: int| 0 <= i < pending@.len() ==> {
                            let m = #[trigger] pending@[i];
                            self.grid.inside(m.0 as int, m.1 as int) && self.grid.cell(m.0 as int, m.1 as int).revealed
                                && !g0.cell(m.0 as int, m.1 as int).revealed
                        },
                        forall|r: int, c: int, r2: int, c2: int|
                            self.grid.inside(r, c) && #[trigger] self.grid.cell(r, c).revealed && !g0.cell(r, c).revealed
                                && spreads(g0.cell(r, c)) && !pending@.contains((r as usize, c as usize))
                                && (r, c) != (m.0 as int, m.1 as int)
                                && adjacent(g0, (r, c), (r2, c2)) ==> #[trigger] self.grid.cell(r2, c2).revealed,
                        forall|r2: int, c2: int|
                            adjacent(g0, (m.0 as int, m.1 as int), (r2, c2))
                                && (r2 - m.0 + 1) * 3 + (c2 - m.1 + 1) < k
                                ==> #[trigger] self.grid.cell(r2, c2).revealed,
                        hit == exists|r: int, c: int| #![trigger self.grid.cell(r, c)]
                            self.grid.inside(r, c) && self.grid.cell(r, c).revealed && !g0.cell(r, c).revealed
                                && is_hazard(g0.cell(r, c).content),
                        10 * hidden_count(self.grid.cells@) + pending@.len() <= measure,
                    decreases 9 - k,
                {
                    let dr = k / 3;
                    let dc = k % 3;
                    if k != 4 {
                        match (shift(m.0, dr, self.grid.rows), shift(m.1, dc, self.grid.cols)) {
                            (Some(r), Some(c)) => {
                                let ghost g_before = self.grid;
                                let ghost hit_before = hit;
                                let ghost pending_before = pending@;
                                self.visit(r, c, &mut pending, &mut hit);
                                proof {
                                    let q = (r as int, c as int);
                                    assert(adjacent(g0, (m.0 as int, m.1 as int), q));
                                    if !g_before.cell(r as int, c as int).revealed {
                                        lemma_cascade_step(g0, p, (m.0 as int, m.1 as int), q);
                                        assert forall|i: int| 0 <= i < pending@.len() implies {
                                            let m = #[trigger] pending@[i];
                                            self.grid.inside(m.0 as int, m.1 as int) && self.grid.cell(m.0 as int, m.1 as int).revealed
                                                && !g0.cell(m.0 as int, m.1 as int).revealed
                                        } by {
                                            if i < pending_before.len() {
                                                assert(pending@[i] == pending_before[i]);
                                            }
                                        }
                                        assert forall|r1: int, c1: int, r2: int, c2: int|
                                            self.grid.inside(r1, c1) && #[trigger] self.grid.cell(r1, c1).revealed && !g0.cell(r1, c1).revealed
                                                && spreads(g0.cell(r1, c1)) && !pending@.contains((r1 as usize, c1 as usize))
                                                && (r1, c1) != (m.0 as int, m.1 as int)
                                                && adjacent(g0, (r1, c1), (r2, c2)) implies #[trigger] self.grid.cell(r2, c2).revealed by {
                                            if (r1, c1) == q {
                                                assert(pending@[pending@.len() - 1] == (r, c));
                                            } else {
                                                assert(g_before.cell(r1, c1) == self.grid.cell(r1, c1));
                                                if pending_before.contains((r1 as usize, c1 as usize)) {
                                                    let j = choose|j: int| 0 <= j < pending_before.len() && pending_before[j] == (r1 as usize, c1 as usize);
                                                    assert(pending@[j] == (r1 as usize, c1 as usize));
                                                }
                                                assert(g_before.cell(r2, c2).revealed);
                                            }
                                        }
                                        if hit {
                                            if !hit_before {
                                                assert(self.grid.cell(q.0, q.1).revealed);
                                            } else {
                                                let (r1, c1) = choose|r1: int, c1: int| #![trigger g_before.cell(r1, c1)]
                                                    g_before.inside(r1, c1) && g_before.cell(r1, c1).revealed && !g0.cell(r1, c1).revealed
                                                        && is_hazard(g0.cell(r1, c1).content);
                                                if (r1, c1) != q {
                                                    assert(g_before.cell(r1, c1) == self.grid.cell(r1, c1));
                                                }
                                                assert(self.grid.cell(r1, c1).revealed);
                                            }
                                        } else {
                                            assert forall|r1: int, c1: int| #![trigger self.grid.cell(r1, c1)]
                                                !(self.grid.inside(r1, c1) && self.grid.cell(r1, c1).revealed && !g0.cell(r1, c1).revealed
                                                    && is_hazard(g0.cell(r1, c1).content)) by {
                                                if (r1, c1) != q && self.grid.inside(r1, c1) {
                                                    assert(g_before.cell(r1, c1) == self.grid.cell(r1, c1));
                                                }
                                            }
                                        }
                                    }
                                }
                            },
                            _ => {
                                proof {
                                    assert forall|r2: int, c2: int|
                                        adjacent(g0, (m.0 as int, m.1 as int), (r2, c2))
                                            implies (r2 - m.0 + 1) * 3 + (c2 - m.1 + 1) != k by {
                                        if (r2 - m.0 + 1) * 3 + (c2 - m.1 + 1) == k {
                                            assert(r2 - m.0 + 1 == dr && c2 - m.1 + 1 == dc);
                                        }
                                    }
                                }
                            },
                        }
                    }
                    k = k + 1;
                }
            }
            proof {
                assert forall|r: int, c: int, r2: int, c2: int|
                    self.grid.inside(r, c) && #[trigger] self.grid.cell(r, c).revealed && !g0.cell(r, c).revealed
                        && spreads(g0.cell(r, c)) && !pending@.contains((r as usize, c as usize))
                        && adjacent(g0, (r, c), (r2, c2)) implies #[trigger] self.grid.cell(r2, c2).revealed by {
                    if (r, c) == (m.0 as int, m.1 as int) {
                        assert((r2 - m.0 + 1) * 3 + (c2 - m.1 + 1) < 9);
                    }
                }
            }
        }
        proof {
            assert forall|r: int, c: int| #![trigger self.grid.cell(r, c)]
                self.grid.inside(r, c) && cascade(g0, p, (r, c)) implies self.grid.cell(r, c).revealed by {
                let path = choose|path: Seq<(int, int)>| cascade_path(g0, p, path) && path.last() == (r, c);
                lemma_cascade_complete(g0, self.grid, p, path, path.len() - 1);
            }
            if cascade_hits_hazard(g0, p) {
                let q = choose|q: (int, int)| cascade(g0, p, q) && is_hazard(#[trigger] g0.cell(q.0, q.1).content);
                lemma_reach_hidden(g0, p, q);
                assert(self.grid.cell(q.0, q.1).revealed);
            }
            if hit {
                let (r, c) = choose|r: int, c: int| #![trigger self.grid.cell(r, c)]
                    self.grid.inside(r, c) && self.grid.cell(r, c).revealed && !g0.cell(r, c).revealed
                        && is_hazard(g0.cell(r, c).content);
                assert(cascade(g0, p, (r, c)) && is_hazard(g0.cell(r, c).content));
            }
        }
        if hit {
            self.state = MSGameState::GameOver;
        } else {
            self.check_win_condition();
        }
    }
}


/// Revealing the same cell a second time changes neither the grid nor the
/// game state.
pub proof fn lemma_reveal_idempotent(g0: Grid, s0: MSGameState, p: (int, int), g1: Grid, g2: Grid)
    requires
        g0.wf(),
        g0.inside(p.0, p.1),
        reveal_post(g0, p, g1),
        reveal_post(g1, p, g2),
    ensures
        forall|r: int, c: int| #![trigger g2.cell(r, c)] g2.inside(r, c) ==> g2.cell(r, c) == g1.cell(r, c),
        state_after(g1, p, g2, state_after(g0, p, g1, s0)) == state_after(g0, p, g1, s0),
{
    if !g0.cell(p.0, p.1).revealed {
        assert(cascade_path(g0, p, seq![p]) && seq![p].last() == p);
    }
    assert(g1.cell(p.0, p.1).revealed);
    assert forall|r: int, c: int| #![trigger g2.cell(r, c)] g2.inside(r, c) implies g2.cell(r, c) == g1.cell(r, c) by {
        lemma_no_reach_from_revealed(g1, p, (r, c));
    }
}

/// The Chebyshev distance between two positions.
pub open spec fn chebyshev(p: (int, int), q: (int, int)) -> nat {
    let dr = if q.0 >= p.0 { q.0 - p.0 } else { p.0 - q.0 };
    let dc = if q.1 >= p.1 { q.1 - p.1 } else { p.1 - q.1 };
    (if dr >= dc { dr } else { dc }) as nat
}

proof fn lemma_cascade_everywhere(g: Grid, p: (int, int), q: (int, int))
    requires
        g.wf(),
        g.inside(p.0, p.1),
        g.inside(q.0, q.1),
        forall|r: int, c: int| #![trigger g.cell(r, c)] g.inside(r, c) ==> !g.cell(r, c).revealed && spreads(g.cell(r, c)),
    ensures
        cascade(g, p, q),
    decreases chebyshev(p, q),
{
    if q == p {
        assert(cascade_path(g, p, seq![p]) && seq![p].last() == p);
    } else {
        let mr = if q.0 > p.0 { q.0 - 1 } else if q.0 < p.0 { q.0 + 1 } else { q.0 };
        let mc = if q.1 > p.1 { q.1 - 1 } else if q.1 < p.1 { q.1 + 1 } else { q.1 };
        let m = (mr, mc);
        assert(chebyshev(p, m) < chebyshev(p, q));
        lemma_cascade_everywhere(g, p, m);
        assert(g.cell(m.0, m.1) == g.cell(m.0, m.1));
        assert(g.cell(q.0, q.1) == g.cell(q.0, q.1));
        lemma_cascade_step(g, p, m, q);
    }
}

/// On a fully hidden grid without hazards whose counts agree with it, a
/// reveal anywhere reveals every cell and wins the game, unless it was
/// already lost.
pub proof fn lemma_full_cascade(g0: Grid, s0: MSGameState, p: (int, int), g1: Grid)
    requires
        g0.wf(),
        g0.inside(p.0, p.1),
        counts_consistent(g0),
        forall|r: int, c: int| #![trigger g0.cell(r, c)]
            g0.inside(r, c) ==> !g0.cell(r, c).revealed && !is_hazard(g0.cell(r, c).content),
        reveal_post(g0, p, g1),
    ensures
        forall|r: int, c: int| #![trigger g1.cell(r, c)] g1.inside(r, c) ==> g1.cell(r, c).revealed,
        all_safe_revealed(g1),
        state_after(g0, p, g1, s0) == (if s0 is GameOver { MSGameState::GameOver } else { MSGameState::GameWin }),
{
    assert forall|r: int, c: int| #![trigger g0.cell(r, c)] g0.inside(r, c) implies !g0.cell(r, c).revealed && spreads(g0.cell(r, c)) by {
        assert(g0.cell(r - 1, c - 1) == g0@.cell(r - 1, c - 1));
        assert(g0.cell(r - 1, c) == g0@.cell(r - 1, c));
        assert(g0.cell(r - 1, c + 1) == g0@.cell(r - 1, c + 1));
        assert(g0.cell(r, c - 1) == g0@.cell(r, c - 1));
        assert(g0.cell(r, c + 1) == g0@.cell(r, c + 1));
        assert(g0.cell(r + 1, c - 1) == g0@.cell(r + 1, c - 1));
        assert(g0.cell(r + 1, c) == g0@.cell(r + 1, c));
        assert(g0.cell(r + 1, c + 1) == g0@.cell(r + 1, c + 1));
        assert(neighbors_with(g0@, r, c, CellContent::Mine) == 0);
    }
    assert forall|r: int, c: int| #![trigger g1.cell(r, c)] g1.inside(r, c) implies g1.cell(r, c).revealed by {
        lemma_cascade_everywhere(g0, p, (r, c));
    }
    if cascade_hits_hazard(g0, p) {
        let q = choose|q: (int, int)| cascade(g0, p, q) && is_hazard(#[trigger] g0.cell(q.0, q.1).content);
        lemma_reach_hidden(g0, p, q);
    }
}


/// A rule that looks one step in each of the eight directions and stops at
/// the edge.
pub open spec fn eight_neighbour_rule(rule: PositionRule) -> bool {
    &&& forall|d: Direction| rule.directions.has(d)
    &&& rule.distance == Distance::Finite(1)
    &&& rule.edge_behavior == EdgeBehavior::Stop
}

/// The neighbours that a cascade reaches are those that the eight-direction,
/// one-step, stopping rule finds.
pub proof fn lemma_adjacent_is_eight_neighbour_rule(g: Grid, rule: PositionRule, p: (int, int), q: (int, int))
    requires
        g.inside(p.0, p.1),
        eight_neighbour_rule(rule),
    ensures
        rule_hits(g.rows as int, g.cols as int, p, rule).contains(q) <==> adjacent(g, p, q),
{
    let rows = g.rows as int;
    let cols = g.cols as int;
    lemma_hits_from_members(rows, cols, p, rule, 0, q);
    assert(walk(rows, cols, p, Direction::Left, 0, EdgeBehavior::Stop) == Some(p));
    assert forall|j: int| 0 <= j < 8 implies
        (#[trigger] direction_hits(rows, cols, p, all_directions()[j], rule.distance, rule.edge_behavior).contains(q)
            <==> q == (p.0 + dir_delta(all_directions()[j]).0, p.1 + dir_delta(all_directions()[j]).1) && g.inside(q.0, q.1)) by {
        let d = all_directions()[j];
        assert(walk(rows, cols, p, d, 0, EdgeBehavior::Stop) == Some(p));
        let hits = direction_hits(rows, cols, p, d, rule.distance, rule.edge_behavior);
        if hits.contains(q) {
            let k = choose|k: int| 0 <= k < hits.len() && hits[k] == q;
            assert(hits[k] == q);
        }
        if q == (p.0 + dir_delta(d).0, p.1 + dir_delta(d).1) && g.inside(q.0, q.1) {
            assert(hits[0] == q);
        }
    }
    if adjacent(g, p, q) {
        let dr = q.0 - p.0;
        let dc = q.1 - p.1;
        let j: int = if dr == 0 && dc == -1 { 0 } else if dr == 0 && dc == 1 { 1 } else if dr == -1 && dc == 0 { 2 }
            else if dr == 1 && dc == 0 { 3 } else if dr == -1 && dc == -1 { 4 } else if dr == 1 && dc == -1 { 5 }
            else if dr == -1 && dc == 1 { 6 } else { 7 };
        assert(rule.directions.has(all_directions()[j]));
        assert(direction_hits(rows, cols, p, all_directions()[j], rule.distance, rule.edge_behavior).contains(q));
    }
}

} // verus!
