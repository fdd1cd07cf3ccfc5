use vstd::prelude::*;
use rand::rngs::StdRng;
use crate::cell::{Cell, CellContent};
use crate::grid::{Grid, GridView};
use crate::random::{seeded_rng, shuffle};
use crate::rules::{rule_holds, validate_rule, PuzzleRule, Region};

verus! {

broadcast use vstd::seq_lib::group_to_multiset_ensures;

/// A puzzle kind: its shape, its rules, its regions, and the contents a cell
/// may take.
pub struct PuzzleDefinition {
    pub rows: usize,
    pub cols: usize,
    pub rules: Vec<PuzzleRule>,
    pub regions: Vec<Region>,
    pub states: Vec<CellContent>,
}

/// `g` with the cell at row-major index `k` given content `s` and revealed.
pub open spec fn assign(g: GridView, k: int, s: CellContent) -> GridView {
    GridView { rows: g.rows, cols: g.cols, cells: g.cells.update(k, Cell { content: s, revealed: true }) }
}

/// The hidden empty cell.
pub open spec fn blank() -> Cell {
    Cell { content: CellContent::Empty, revealed: false }
}

/// A `rows` by `cols` grid of hidden empty cells.
pub open spec fn blank_grid(rows: int, cols: int) -> GridView {
    GridView { rows, cols, cells: Seq::new((rows * cols) as nat, |i: int| blank()) }
}

/// `g` with the cell at row-major index `i` hidden and emptied.
pub open spec fn hidden_at(g: GridView, i: int) -> GridView {
    GridView { rows: g.rows, cols: g.cols, cells: g.cells.update(i, blank()) }
}

proof fn lemma_first_occurrence(s: Seq<CellContent>, c: CellContent)
    requires
        s.contains(c),
    ensures
        exists|m: int| 0 <= m < s.len() && s[m] == c && !s.take(m).contains(c),
    decreases s.len(),
{
    let d = s.drop_last();
    if d.contains(c) {
        lemma_first_occurrence(d, c);
        let m = choose|m: int| 0 <= m < d.len() && d[m] == c && !d.take(m).contains(c);
        assert(s.take(m) =~= d.take(m));
        assert(s[m] == c);
    } else {
        let m = s.len() - 1;
        assert(s.take(m) =~= d);
        if !(s[m] == c) {
            let x = choose|x: int| 0 <= x < s.len() && s[x] == c;
            assert(d[x] == c);
        }
    }
}

pub open spec fn min2(n: nat) -> nat {
    if n < 2 { n } else { 2 }
}

impl PuzzleDefinition {
    /// Whether `g` meets every rule.
    pub open spec fn holds(&self, g: GridView) -> bool {
        forall|i: int| 0 <= i < self.rules@.len() ==> #[trigger] rule_holds(self.rules@[i].condition, g, self.regions@)
    }

    /// The number of solutions of `g` from row-major index `k` on, trying
    /// only the first `j` states at `k`: revealed cells are givens, each
    /// hidden cell takes each distinct state in turn (a state listed again
    /// is skipped), and a completed grid counts when it meets every rule.
    pub open spec fn count(&self, g: GridView, k: int, j: int) -> nat
        decreases g.cells.len() - k, j,
    {
        if k < 0 || k >= g.cells.len() {
            if self.holds(g) { 1 } else { 0 }
        } else if g.cells[k].revealed {
            self.count(g, k + 1, self.states@.len() as int)
        } else if j <= 0 || j > self.states@.len() {
            0
        } else {
            let s = self.states@[j - 1];
            self.count(g, k, j - 1) + if self.states@.take(j - 1).contains(s) {
                0
            } else {
                self.count(assign(g, k, s), k + 1, self.states@.len() as int)
            }
        }
    }

    /// The number of leaves that the generating search reaches from index
    /// `k`, trying only the first `j` states at `k`: like `count`, but a
    /// branch goes on only while the grid meets every rule after each
    /// assignment.
    pub open spec fn search_count(&self, g: GridView, k: int, j: int) -> nat
        decreases g.cells.len() - k, j,
    {
        if k < 0 || k >= g.cells.len() {
            if self.holds(g) { 1 } else { 0 }
        } else if g.cells[k].revealed {
            self.search_count(g, k + 1, self.states@.len() as int)
        } else if j <= 0 || j > self.states@.len() {
            0
        } else {
            let g2 = assign(g, k, self.states@[j - 1]);
            self.search_count(g, k, j - 1) + if self.holds(g2) {
                self.search_count(g2, k + 1, self.states@.len() as int)
            } else {
                0
            }
        }
    }

    /// The number of solutions of `g`.
    pub open spec fn solutions(&self, g: GridView) -> nat {
        self.count(g, 0, self.states@.len() as int)
    }

    /// Whether giving state `s` to the hidden cell at `k` keeps every rule
    /// and leaves the search a way to finish.
    pub open spec fn good_choice(&self, g: GridView, k: int, s: CellContent) -> bool {
        self.holds(assign(g, k, s)) && self.search_count(assign(g, k, s), k + 1, self.states@.len() as int) > 0
    }

    proof fn lemma_count_positive(&self, g: GridView, k: int, j: int)
        requires
            0 <= k < g.cells.len(),
            !g.cells[k].revealed,
            0 <= j <= self.states@.len(),
        ensures
            (self.search_count(g, k, j) > 0) <==> exists|i: int| 0 <= i < j && #[trigger] self.good_choice(g, k, self.states@[i]),
        decreases j,
    {
        if j > 0 {
            self.lemma_count_positive(g, k, j - 1);
            if self.good_choice(g, k, self.states@[j - 1]) {
                assert(self.search_count(g, k, j) > 0);
            }
            if exists|i: int| 0 <= i < j && #[trigger] self.good_choice(g, k, self.states@[i]) {
                let i = choose|i: int| 0 <= i < j && #[trigger] self.good_choice(g, k, self.states@[i]);
                if i < j - 1 {
                    assert(self.search_count(g, k, j - 1) > 0);
                }
            }
        }
    }

    proof fn lemma_count_grows(&self, g: GridView, k: int, i: int, j: int)
        requires
            0 <= k < g.cells.len(),
            !g.cells[k].revealed,
            0 <= i <= j <= self.states@.len(),
        ensures
            self.count(g, k, i) <= self.count(g, k, j),
        decreases j - i,
    {
        if i < j {
            self.lemma_count_grows(g, k, i, j - 1);
        }
    }

    /// Whether every revealed cell of `g` holds one of the states.
    pub open spec fn givens_in_states(&self, g: GridView) -> bool {
        forall|i: int| 0 <= i < g.cells.len() && (#[trigger] g.cells[i]).revealed ==> self.states@.contains(g.cells[i].content)
    }

    proof fn lemma_count_ge_term(&self, h: GridView, i: int, j: int, m: int)
        requires
            0 <= i < h.cells.len(),
            !h.cells[i].revealed,
            0 <= m < j <= self.states@.len(),
            !self.states@.take(m).contains(self.states@[m]),
        ensures
            self.count(h, i, j) >= self.count(assign(h, i, self.states@[m]), i + 1, self.states@.len() as int),
        decreases j,
    {
        if m < j - 1 {
            self.lemma_count_ge_term(h, i, j - 1, m);
        }
    }

    proof fn lemma_hide_hidden(&self, g: GridView, i: int, j: int)
        requires
            0 <= i < g.cells.len(),
            !g.cells[i].revealed,
            0 <= j <= self.states@.len(),
        ensures
            self.count(hidden_at(g, i), i, j) == self.count(g, i, j),
        decreases j,
    {
        if j > 0 {
            self.lemma_hide_hidden(g, i, j - 1);
            let s = self.states@[j - 1];
            assert(assign(hidden_at(g, i), i, s).cells =~= assign(g, i, s).cells);
            assert(assign(hidden_at(g, i), i, s) == assign(g, i, s));
        }
    }

    /// Hiding a cell that is hidden already, or whose content is one of the
    /// states, loses no solution.
    pub proof fn lemma_hide_keeps_solutions(&self, g: GridView, i: int, k: int, j: int)
        requires
            0 <= k <= i < g.cells.len(),
            0 <= j <= self.states@.len(),
            k < i || j == self.states@.len(),
            g.cells[i].revealed ==> self.states@.contains(g.cells[i].content),
        ensures
            self.count(hidden_at(g, i), k, j) >= self.count(g, k, j),
        decreases i - k, j,
    {
        let h = hidden_at(g, i);
        let big = self.states@.len() as int;
        if k == i {
            if !g.cells[i].revealed {
                self.lemma_hide_hidden(g, i, j);
            } else {
                let c = g.cells[i].content;
                lemma_first_occurrence(self.states@, c);
                let m = choose|m: int| 0 <= m < self.states@.len() && self.states@[m] == c && !self.states@.take(m).contains(c);
                self.lemma_count_ge_term(h, i, big, m);
                assert(assign(h, i, c).cells =~= g.cells);
                assert(assign(h, i, c) == g);
            }
        } else if g.cells[k].revealed {
            assert(h.cells[k] == g.cells[k]);
            self.lemma_hide_keeps_solutions(g, i, k + 1, big);
        } else if j > 0 {
            assert(h.cells[k] == g.cells[k]);
            self.lemma_hide_keeps_solutions(g, i, k, j - 1);
            let s = self.states@[j - 1];
            let g2 = assign(g, k, s);
            assert(assign(h, k, s).cells =~= hidden_at(g2, i).cells);
            assert(assign(h, k, s) == hidden_at(g2, i));
            self.lemma_hide_keeps_solutions(g2, i, k + 1, big);
        }
    }

    /// `full` completes `g` from index `k` on: it has `g`'s shape, agrees
    /// with `g` before `k` and on every revealed cell, gives every other
    /// cell a state and reveals it, and meets every rule.
    pub open spec fn completes(&self, g: GridView, full: GridView, k: int) -> bool {
        &&& full.rows == g.rows
        &&& full.cols == g.cols
        &&& full.cells.len() == g.cells.len()
        &&& self.holds(full)
        &&& forall|i: int| 0 <= i < g.cells.len() && (i < k || g.cells[i].revealed) ==> #[trigger] full.cells[i] == g.cells[i]
        &&& forall|i: int| 0 <= i < g.cells.len() && k <= i && !g.cells[i].revealed ==> {
            &&& (#[trigger] full.cells[i]).revealed
            &&& self.states@.contains(full.cells[i].content)
        }
    }

    proof fn lemma_count_ge_two_terms(&self, h: GridView, i: int, j: int, m1: int, m2: int)
        requires
            0 <= i < h.cells.len(),
            !h.cells[i].revealed,
            0 <= m1 < m2 < j <= self.states@.len(),
            !self.states@.take(m1).contains(self.states@[m1]),
            !self.states@.take(m2).contains(self.states@[m2]),
        ensures
            self.count(h, i, j) >= self.count(assign(h, i, self.states@[m1]), i + 1, self.states@.len() as int)
                + self.count(assign(h, i, self.states@[m2]), i + 1, self.states@.len() as int),
        decreases j,
    {
        if m2 < j - 1 {
            self.lemma_count_ge_two_terms(h, i, j - 1, m1, m2);
        } else {
            self.lemma_count_ge_term(h, i, j - 1, m1);
        }
    }

    proof fn lemma_assign_completes(&self, g: GridView, full: GridView, k: int)
        requires
            0 <= k < g.cells.len(),
            !g.cells[k].revealed,
            self.completes(g, full, k),
        ensures
            self.completes(assign(g, k, full.cells[k].content), full, k + 1),
            full.cells[k] == (Cell { content: full.cells[k].content, revealed: true }),
    {
        let c = full.cells[k].content;
        let g2 = assign(g, k, c);
        assert(full.cells[k].revealed);
        assert forall|i: int| 0 <= i < g2.cells.len() && (i < k + 1 || g2.cells[i].revealed) implies #[trigger] full.cells[i] == g2.cells[i] by {
            if i != k {
                assert(g2.cells[i] == g.cells[i]);
            }
        }
        assert forall|i: int| 0 <= i < g2.cells.len() && k + 1 <= i && !g2.cells[i].revealed implies {
            &&& (#[trigger] full.cells[i]).revealed
            &&& self.states@.contains(full.cells[i].content)
        } by {
            assert(g2.cells[i] == g.cells[i]);
        }
    }

    /// A grid with a completion has at least one solution.
    pub proof fn lemma_completion_counts(&self, g: GridView, full: GridView, k: int)
        requires
            0 <= k <= g.cells.len(),
            self.completes(g, full, k),
        ensures
            self.count(g, k, self.states@.len() as int) >= 1,
        decreases g.cells.len() - k,
    {
        if k == g.cells.len() {
            assert(full.cells =~= g.cells);
            assert(full == g);
        } else if g.cells[k].revealed {
            self.lemma_completes_step(g, full, k);
            self.lemma_completion_counts(g, full, k + 1);
        } else {
            let c = full.cells[k].content;
            self.lemma_assign_completes(g, full, k);
            self.lemma_completion_counts(assign(g, k, c), full, k + 1);
            lemma_first_occurrence(self.states@, c);
            let m = choose|m: int| 0 <= m < self.states@.len() && self.states@[m] == c && !self.states@.take(m).contains(c);
            self.lemma_count_ge_term(g, k, self.states@.len() as int, m);
        }
    }

    proof fn lemma_completes_step(&self, g: GridView, full: GridView, k: int)
        requires
            0 <= k < g.cells.len(),
            g.cells[k].revealed,
            self.completes(g, full, k),
        ensures
            self.completes(g, full, k + 1),
    {
        assert forall|i: int| 0 <= i < g.cells.len() && (i < k + 1 || g.cells[i].revealed) implies #[trigger] full.cells[i] == g.cells[i] by {}
    }

    /// Two different completions of a grid make two solutions: such a grid
    /// has no unique solution.
    pub proof fn lemma_two_completions(&self, g: GridView, a: GridView, b: GridView, k: int)
        requires
            0 <= k <= g.cells.len(),
            self.completes(g, a, k),
            self.completes(g, b, k),
            a.cells != b.cells,
        ensures
            self.count(g, k, self.states@.len() as int) >= 2,
        decreases g.cells.len() - k,
    {
        let big = self.states@.len() as int;
        if k == g.cells.len() {
            assert(a.cells =~= g.cells);
            assert(b.cells =~= g.cells);
        } else if g.cells[k].revealed {
            self.lemma_completes_step(g, a, k);
            self.lemma_completes_step(g, b, k);
            self.lemma_two_completions(g, a, b, k + 1);
        } else {
            let ca = a.cells[k].content;
            let cb = b.cells[k].content;
            self.lemma_assign_completes(g, a, k);
            self.lemma_assign_completes(g, b, k);
            lemma_first_occurrence(self.states@, ca);
            lemma_first_occurrence(self.states@, cb);
            let ma = choose|m: int| 0 <= m < self.states@.len() && self.states@[m] == ca && !self.states@.take(m).contains(ca);
            let mb = choose|m: int| 0 <= m < self.states@.len() && self.states@[m] == cb && !self.states@.take(m).contains(cb);
            if ca == cb {
                self.lemma_two_completions(assign(g, k, ca), a, b, k + 1);
                self.lemma_count_ge_term(g, k, big, ma);
            } else {
                self.lemma_completion_counts(assign(g, k, ca), a, k + 1);
                self.lemma_completion_counts(assign(g, k, cb), b, k + 1);
                if ma < mb {
                    self.lemma_count_ge_two_terms(g, k, big, ma, mb);
                } else {
                    self.lemma_count_ge_two_terms(g, k, big, mb, ma);
                }
            }
        }
    }

    /// A grid whose hidden cells can be filled in two different ways that
    /// both meet the rules, say two hazard placements that agree on every
    /// revealed cell, has no unique solution.
    pub proof fn lemma_two_placements_not_unique(&self, g: GridView, a: GridView, b: GridView)
        requires
            self.completes(g, a, 0),
            self.completes(g, b, 0),
            a.cells != b.cells,
        ensures
            self.solutions(g) != 1,
    {
        self.lemma_two_completions(g, a, b, 0);
    }

    /// Whether `grid` meets every rule.
    pub fn validate(&self, grid: &Grid) -> (ok: bool)
        requires
            grid.wf(),
        ensures
            ok == self.holds(grid@),
    {
        let mut i: usize = 0;
        while i < self.rules.len()
            invariant
                grid.wf(),
                0 <= i <= self.rules@.len(),
                forall|k: int| 0 <= k < i ==> #[trigger] rule_holds(self.rules@[k].condition, grid@, self.regions@),
            decreases self.rules@.len() - i,
        {
            if !validate_rule(&self.rules[i].condition, grid, &self.regions) {
                return false;
            }
            i = i + 1;
        }
        true
    }

    /// The number of solutions of `grid` from `k` on, capped at two; the grid
    /// is left as it was.
    fn count_from(&self, grid: &mut Grid, k: usize) -> (c: usize)
        requires
            old(grid).wf(),
            k <= old(grid)@.cells.len(),
        ensures
            final(grid)@ == old(grid)@,
            final(grid).wf(),
            c == min2(self.count(old(grid)@, k as int, self.states@.len() as int)),
        decreases old(grid)@.cells.len() - k,
    {
        let ghost g = grid@;
        if k == grid.cells.len() {
            return if self.validate(grid) { 1 } else { 0 };
        }
        let saved = grid.cells[k];
        if saved.revealed {
            return self.count_from(grid, k + 1);
        }
        let mut total: usize = 0;
        let mut j: usize = 0;
        while j < self.states.len()
            invariant
                grid.wf(),
                grid@ == g,
                g == old(grid)@,
                g.cells.len() == grid.cells@.len(),
                g.cells.len() <= usize::MAX,
                0 <= k < g.cells.len(),
                saved == g.cells[k as int],
                !saved.revealed,
                0 <= j <= self.states@.len(),
                total == min2(self.count(g, k as int, j as int)),
            decreases self.states@.len() - j,
        {
            let s = self.states[j];
            if !seen_before(&self.states, j) {
                grid.cells.set(k, Cell { content: s, revealed: true });
                proof {
                    assert(grid@ =~= assign(g, k as int, s));
                    assert(grid@ == assign(g, k as int, s));
                }
                let c = self.count_from(grid, k + 1);
                total = if total + c >= 2 { 2 } else { total + c };
                grid.cells.set(k, saved);
                proof {
                    assert(grid@.cells =~= g.cells);
                    assert(grid@ == g);
                }
            }
            if total >= 2 {
                proof {
                    self.lemma_count_grows(g, k as int, j + 1, self.states@.len() as int);
                }
                return 2;
            }
            j = j + 1;
        }
        total
    }

    /// Whether `grid` has exactly one solution: every hidden cell takes a
    /// state so that the rules hold, in exactly one way.
    pub fn has_unique_solution(&self, grid: &Grid) -> (unique: bool)
        requires
            grid.wf(),
        ensures
            unique == (self.solutions(grid@) == 1),
    {
        let mut copy = grid.copy();
        self.count_from(&mut copy, 0) == 1
    }

    /// Fills the hidden cells from `k` on by backtracking, trying the states
    /// in a random order at each cell. On success the grid meets every rule;
    /// on failure it is left as it was.
    fn fill_from(&self, grid: &mut Grid, k: usize, rng: &mut StdRng) -> (ok: bool)
        requires
            old(grid).wf(),
            k <= old(grid)@.cells.len(),
        ensures
            final(grid).wf(),
            final(grid).rows == old(grid).rows,
            final(grid).cols == old(grid).cols,
            ok == (self.search_count(old(grid)@, k as int, self.states@.len() as int) > 0),
            ok ==> self.holds(final(grid)@),
            ok ==> forall|i: int| 0 <= i < final(grid)@.cells.len() ==> {
                &&& (i < k || old(grid)@.cells[i].revealed ==> #[trigger] final(grid)@.cells[i] == old(grid)@.cells[i])
                &&& final(grid)@.cells[i].revealed || i < k
                &&& i < k || old(grid)@.cells[i].revealed || self.states@.contains(final(grid)@.cells[i].content)
            },
            !ok ==> final(grid)@ == old(grid)@,
        decreases old(grid)@.cells.len() - k,
    {
        let ghost g = grid@;
        if k == grid.cells.len() {
            return self.validate(grid);
        }
        let saved = grid.cells[k];
        if saved.revealed {
            return self.fill_from(grid, k + 1, rng);
        }
        let mut order: Vec<CellContent> = Vec::new();
        let mut i: usize = 0;
        while i < self.states.len()
            invariant
                0 <= i <= self.states@.len(),
                order@ == self.states@.take(i as int),
            decreases self.states@.len() - i,
        {
            order.push(self.states[i]);
            proof {
                assert(self.states@.take(i + 1) =~= self.states@.take(i as int).push(self.states@[i as int]));
            }
            i = i + 1;
        }
        proof {
            assert(self.states@.take(self.states@.len() as int) =~= self.states@);
        }
        shuffle(&mut order, rng);
        let mut t: usize = 0;
        while t < order.len()
            invariant
                grid.wf(),
                grid@ == g,
                g == old(grid)@,
                g.cells.len() == grid.cells@.len(),
                g.cells.len() <= usize::MAX,
                0 <= k < g.cells.len(),
                saved == g.cells[k as int],
                !saved.revealed,
                order@.to_multiset() == self.states@.to_multiset(),
                0 <= t <= order@.len(),
                forall|i: int| 0 <= i < t ==> !self.good_choice(g, k as int, #[trigger] order@[i]),
            decreases order@.len() - t,
        {
            let s = order[t];
            grid.cells.set(k, Cell { content: s, revealed: true });
            proof {
                assert(grid@ =~= assign(g, k as int, s));
                assert(grid@ == assign(g, k as int, s));
            }
            if self.validate(grid) {
                let ghost before = grid@;
                if self.fill_from(grid, k + 1, rng) {
                    proof {
                        assert(self.good_choice(g, k as int, s));
                        assert(order@[t as int] == s);
                        assert(order@.contains(s));
                        assert(order@.to_multiset().count(s) > 0);
                        assert(self.states@.to_multiset().count(s) > 0);
                        assert(self.states@.contains(s));
                        let i = choose|i: int| 0 <= i < self.states@.len() && self.states@[i] == s;
                        assert(self.good_choice(g, k as int, self.states@[i]));
                        self.lemma_count_positive(g, k as int, self.states@.len() as int);
                        assert forall|i2: int| 0 <= i2 < grid@.cells.len() implies {
                            &&& (i2 < k || g.cells[i2].revealed ==> #[trigger] grid@.cells[i2] == g.cells[i2])
                            &&& grid@.cells[i2].revealed || i2 < k
                            &&& i2 < k || g.cells[i2].revealed || self.states@.contains(grid@.cells[i2].content)
                        } by {
                            if i2 != k {
                                assert(before.cells[i2] == g.cells[i2]);
                            }
                        }
                    }
                    return true;
                }
            }
            grid.cells.set(k, saved);
            proof {
                assert(grid@.cells =~= g.cells);
                assert(grid@ == g);
            }
            t = t + 1;
        }
        proof {
            self.lemma_count_positive(g, k as int, self.states@.len() as int);
            assert forall|i: int| 0 <= i < self.states@.len() implies !#[trigger] self.good_choice(g, k as int, self.states@[i]) by {
                let x = self.states@[i];
                assert(self.states@.contains(x));
                assert(self.states@.to_multiset().count(x) > 0);
                assert(order@.to_multiset().count(x) > 0);
                assert(order@.contains(x));
                let j = choose|j: int| 0 <= j < order@.len() && order@[j] == x;
                assert(!self.good_choice(g, k as int, order@[j]));
            }
        }
        false
    }

    /// A full solution: every cell revealed with a state, meeting every rule,
    /// found by backtracking from a grid of hidden empty cells. `None` when
    /// the search finds none.
    pub fn generate_full_solution(&self, rng: &mut StdRng) -> (r: Option<Grid>)
        requires
            self.rows * self.cols <= usize::MAX,
        ensures
            r is Some <==> self.search_count(blank_grid(self.rows as int, self.cols as int), 0, self.states@.len() as int) > 0,
            r matches Some(g) ==> g.wf() && g.rows == self.rows && g.cols == self.cols && self.holds(g@)
                && self.givens_in_states(g@)
                && forall|i: int| 0 <= i < g@.cells.len() ==> (#[trigger] g@.cells[i]).revealed,
    {
        let mut grid = Grid::filled(self.rows, self.cols, Cell::blank());
        proof {
            assert(grid@.cells =~= blank_grid(self.rows as int, self.cols as int).cells) by {
                assert forall|i: int| 0 <= i < grid@.cells.len() implies grid@.cells[i] == blank() by {
                    crate::search::lemma_pos_of_inside(self.rows as int, self.cols as int, i);
                    let r = i / self.cols as int;
                    let c = i % self.cols as int;
                    assert(grid.cell(r, c) == blank());
                    vstd::arithmetic::div_mod::lemma_fundamental_div_mod(i, self.cols as int);
                    assert(r * self.cols + c == i) by (nonlinear_arith)
                        requires i == self.cols * r + c;
                }
            }
            assert(grid@ == blank_grid(self.rows as int, self.cols as int));
        }
        if self.fill_from(&mut grid, 0, rng) {
            Some(grid)
        } else {
            None
        }
    }

    /// Hides as many cells as it can, one at a time in a random order: a
    /// cell becomes hidden and empty, and is restored when the grid would
    /// lose its single solution.
    pub fn reduce_revealed_cells(&self, grid: &mut Grid, rng: &mut StdRng)
        requires
            old(grid).wf(),
        ensures
            final(grid).wf(),
            final(grid).rows == old(grid).rows,
            final(grid).cols == old(grid).cols,
            forall|i: int| 0 <= i < final(grid)@.cells.len() ==> #[trigger] final(grid)@.cells[i] == old(grid)@.cells[i]
                || final(grid)@.cells[i] == blank(),
            self.solutions(old(grid)@) == 1 ==> self.solutions(final(grid)@) == 1,
            self.solutions(old(grid)@) == 1 && self.givens_in_states(old(grid)@) ==> forall|i: int|
                0 <= i < final(grid)@.cells.len() && #[trigger] final(grid)@.cells[i] != blank()
                    ==> self.solutions(hidden_at(final(grid)@, i)) >= 2,
    {
        let ghost g0 = grid@;
        let ghost premise = self.solutions(g0) == 1 && self.givens_in_states(g0);
        let n = grid.cells.len();
        let mut order: Vec<usize> = Vec::new();
        let mut i: usize = 0;
        while i < n
            invariant
                0 <= i <= n,
                order@.len() == i,
                forall|k: int| 0 <= k < i ==> #[trigger] order@[k] == k,
            decreases n - i,
        {
            order.push(i);
            i = i + 1;
        }
        let ghost unshuffled = order@;
        shuffle(&mut order, rng);
        proof {
            assert forall|k: int| 0 <= k < order@.len() implies #[trigger] order@[k] < n by {
                let x = order@[k];
                assert(order@.contains(x));
                assert(order@.to_multiset().count(x) > 0);
                assert(unshuffled.to_multiset().count(x) > 0);
                assert(unshuffled.contains(x));
                let j = choose|j: int| 0 <= j < unshuffled.len() && unshuffled[j] == x;
                assert(unshuffled[j] < n);
            }
            assert(order@.take(0) =~= Seq::<usize>::empty());
        }
        let mut t: usize = 0;
        while t < order.len()
            invariant
                grid.wf(),
                grid.rows == g0.rows,
                grid.cols == g0.cols,
                n == grid.cells@.len(),
                n == g0.cells.len(),
                forall|k: int| 0 <= k < order@.len() ==> #[trigger] order@[k] < n,
                0 <= t <= order@.len(),
                forall|i: int| 0 <= i < grid@.cells.len() ==> #[trigger] grid@.cells[i] == g0.cells[i] || grid@.cells[i] == blank(),
                self.solutions(g0) == 1 ==> self.solutions(grid@) == 1,
                premise == (self.solutions(g0) == 1 && self.givens_in_states(g0)),
                premise ==> forall|i: int|
                    0 <= i < n && order@.take(t as int).contains(i as usize) && #[trigger] grid@.cells[i] != blank()
                        ==> self.solutions(hidden_at(grid@, i)) >= 2,
            decreases order@.len() - t,
        {
            let k = order[t];
            let saved = grid.cells[k];
            let ghost before = grid@;
            grid.cells.set(k, Cell::blank());
            proof {
                assert(grid@.cells =~= before.cells.update(k as int, blank()));
            }
            proof {
                assert(grid@ == hidden_at(before, k as int));
                assert(order@.take(t + 1) =~= order@.take(t as int).push(k));
                if premise {
                    assert(before.cells[k as int] == g0.cells[k as int] || before.cells[k as int] == blank());
                    self.lemma_hide_keeps_solutions(before, k as int, 0, self.states@.len() as int);
                }
            }
            let unique = self.has_unique_solution(grid);
            if !unique {
                grid.cells.set(k, saved);
                proof {
                    assert(grid@.cells =~= before.cells);
                    assert(grid@ == before);
                }
            }
            proof {
                assert forall|i: int| 0 <= i < grid@.cells.len() implies #[trigger] grid@.cells[i] == g0.cells[i] || grid@.cells[i] == blank() by {
                    assert(before.cells[i] == g0.cells[i] || before.cells[i] == blank());
                }
                if premise {
                    assert forall|i: int|
                        0 <= i < n && order@.take(t + 1).contains(i as usize) && #[trigger] grid@.cells[i] != blank()
                        implies self.solutions(hidden_at(grid@, i)) >= 2 by {
                        if i != k {
                            let x = choose|x: int| 0 <= x < t + 1 && #[trigger] order@.take(t + 1)[x] == i as usize;
                            assert(x < t);
                            assert(order@.take(t as int)[x] == i as usize);
                            assert(grid@.cells[i] == before.cells[i]);
                            if unique {
                                let hb = hidden_at(before, i);
                                assert(hb.cells[k as int] == before.cells[k as int]);
                                assert(before.cells[k as int] == g0.cells[k as int] || before.cells[k as int] == blank());
                                self.lemma_hide_keeps_solutions(hb, k as int, 0, self.states@.len() as int);
                                assert(hidden_at(hb, k as int).cells =~= hidden_at(grid@, i).cells);
                                assert(hidden_at(hb, k as int) == hidden_at(grid@, i));
                            }
                        }
                    }
                }
            }
            t = t + 1;
        }
        proof {
            if premise {
                assert forall|i: int| 0 <= i < n && #[trigger] grid@.cells[i] != blank()
                    implies self.solutions(hidden_at(grid@, i)) >= 2 by {
                    assert(unshuffled[i] == i as usize);
                    assert(unshuffled.contains(i as usize));
                    assert(unshuffled.to_multiset().count(i as usize) > 0);
                    assert(order@.contains(i as usize));
                    assert(order@.take(order@.len() as int) =~= order@);
                }
            }
        }
    }

    /// A puzzle with a single solution, from the given seed: a full solution
    /// whose givens are then reduced. `None` when no full solution is found.
    pub fn generate_puzzle(&self, seed: u64) -> (r: Option<Grid>)
        requires
            self.rows * self.cols <= usize::MAX,
        ensures
            r is Some <==> self.search_count(blank_grid(self.rows as int, self.cols as int), 0, self.states@.len() as int) > 0,
            r matches Some(g) ==> g.wf() && g.rows == self.rows && g.cols == self.cols && self.solutions(g@) == 1
                && forall|i: int| 0 <= i < g@.cells.len() && #[trigger] g@.cells[i] != blank()
                    ==> self.solutions(hidden_at(g@, i)) >= 2,
    {
        let mut rng = seeded_rng(seed);
        match self.generate_full_solution(&mut rng) {
            Some(mut grid) => {
                proof {
                    self.lemma_solved_is_unique(grid@, 0);
                }
                self.reduce_revealed_cells(&mut grid, &mut rng);
                Some(grid)
            },
            None => None,
        }
    }

    /// A grid that is wholly revealed and meets every rule has exactly one
    /// solution: itself.
    pub proof fn lemma_solved_is_unique(&self, g: GridView, k: int)
        requires
            self.holds(g),
            forall|i: int| 0 <= i < g.cells.len() ==> (#[trigger] g.cells[i]).revealed,
            0 <= k,
        ensures
            self.count(g, k, self.states@.len() as int) == 1,
        decreases g.cells.len() - k,
    {
        if k < g.cells.len() {
            self.lemma_solved_is_unique(g, k + 1);
        }
    }
}

impl Grid {
    /// A cell-by-cell copy.
    pub fn copy(&self) -> (r: Grid)
        ensures
            r@ == self@,
            r.wf() == self.wf(),
    {
        let mut cells: Vec<Cell> = Vec::new();
        let mut i: usize = 0;
        while i < self.cells.len()
            invariant
                0 <= i <= self.cells@.len(),
                cells@ == self.cells@.take(i as int),
            decreases self.cells@.len() - i,
        {
            cells.push(self.cells[i]);
            proof {
                assert(self.cells@.take(i + 1) =~= self.cells@.take(i as int).push(self.cells@[i as int]));
            }
            i = i + 1;
        }
        proof {
            assert(self.cells@.take(self.cells@.len() as int) =~= self.cells@);
        }
        Grid { rows: self.rows, cols: self.cols, cells }
    }
}

/// Whether `states[j]` already occurs before index `j`.
fn seen_before(states: &Vec<CellContent>, j: usize) -> (r: bool)
    requires
        j < states@.len(),
    ensures
        r == states@.take(j as int).contains(states@[j as int]),
{
    let mut i: usize = 0;
    while i < j
        invariant
            0 <= i <= j < states@.len(),
            forall|m: int| 0 <= m < i ==> states@[m] != states@[j as int],
        decreases j - i,
    {
        if states[i] == states[j] {
            proof {
                assert(states@.take(j as int)[i as int] == states@[j as int]);
            }
            return true;
        }
        i = i + 1;
    }
    proof {
        if states@.take(j as int).contains(states@[j as int]) {
            let m = choose|m: int| 0 <= m < j && states@.take(j as int)[m] == states@[j as int];
            assert(states@[m] == states@[j as int]);
        }
    }
    false
}

} // verus!
