use vstd::prelude::*;
use crate::cell::{Cell, CellContent};
use crate::direction::{all_directions, Direction, DirectionSet};
use crate::grid::{inside, lemma_flat_index, Grid};
use crate::position_rule::{Distance, EdgeBehavior, PositionRule};

verus! {

/// The row and column offsets of one step in direction `d`.
pub open spec fn dir_delta(d: Direction) -> (int, int) {
    match d {
        Direction::Left => (0, -1),
        Direction::Right => (0, 1),
        Direction::Up => (-1, 0),
        Direction::Down => (1, 0),
        Direction::LeftUp => (-1, -1),
        Direction::LeftDown => (1, -1),
        Direction::RightUp => (-1, 1),
        Direction::RightDown => (1, 1),
    }
}

/// One coordinate moved by `delta` inside an extent of `max`: `None` past the
/// edge under `Stop`, the Euclidean remainder under `Wrap`.
pub open spec fn step(cur: int, max: int, delta: int, edge: EdgeBehavior) -> Option<int> {
    let next = cur + delta;
    match edge {
        EdgeBehavior::Stop => if 0 <= next < max { Some(next) } else { None },
        EdgeBehavior::Wrap => Some(next % max),
    }
}

/// One step from `p` in direction `d`.
pub open spec fn move_once(rows: int, cols: int, p: (int, int), d: Direction, edge: EdgeBehavior) -> Option<(int, int)> {
    let (dr, dc) = dir_delta(d);
    match (step(p.0, rows, dr, edge), step(p.1, cols, dc, edge)) {
        (Some(r), Some(c)) => Some((r, c)),
        _ => None,
    }
}

/// Where `n` steps from `p` in direction `d` end, if no step fails.
pub open spec fn walk(rows: int, cols: int, p: (int, int), d: Direction, n: nat, edge: EdgeBehavior) -> Option<(int, int)>
    decreases n,
{
    if n == 0 {
        Some(p)
    } else {
        match walk(rows, cols, p, d, (n - 1) as nat, edge) {
            Some(q) => move_once(rows, cols, q, d, edge),
            None => None,
        }
    }
}

/// The bound on an unbounded walk: one lap of the longer side.
pub open spec fn ray_limit(rows: int, cols: int) -> int {
    if rows >= cols { rows } else { cols }
}

/// The hits of walks of `k`, `k + 1`, ... up to `limit` steps, nearest first,
/// up to the first walk that fails.
pub open spec fn ray(rows: int, cols: int, p: (int, int), d: Direction, edge: EdgeBehavior, k: int, limit: int) -> Seq<(int, int)>
    decreases limit + 1 - k,
{
    if k > limit || k < 1 {
        Seq::empty()
    } else {
        match walk(rows, cols, p, d, k as nat, edge) {
            Some(q) => seq![q] + ray(rows, cols, p, d, edge, k + 1, limit),
            None => Seq::empty(),
        }
    }
}

/// The hits of one direction under a distance and edge behaviour.
pub open spec fn direction_hits(rows: int, cols: int, p: (int, int), d: Direction, distance: Distance, edge: EdgeBehavior) -> Seq<(int, int)> {
    match distance {
        Distance::Finite(n) => match walk(rows, cols, p, d, n as nat, edge) {
            Some(q) => seq![q],
            None => Seq::empty(),
        },
        Distance::Infinite => ray(rows, cols, p, d, edge, 1, ray_limit(rows, cols)),
    }
}

/// The hits of the directions from index `i` on, in enumeration order.
pub open spec fn hits_from(rows: int, cols: int, p: (int, int), rule: PositionRule, i: int) -> Seq<(int, int)>
    decreases 8 - i,
{
    if i >= 8 || i < 0 {
        Seq::empty()
    } else {
        let d = all_directions()[i];
        let here = if rule.directions.has(d) {
            direction_hits(rows, cols, p, d, rule.distance, rule.edge_behavior)
        } else {
            Seq::empty()
        };
        here + hits_from(rows, cols, p, rule, i + 1)
    }
}

/// Every position that `rule` finds from `p`, in direction order, each
/// direction nearest first.
pub open spec fn rule_hits(rows: int, cols: int, p: (int, int), rule: PositionRule) -> Seq<(int, int)> {
    hits_from(rows, cols, p, rule, 0)
}

/// How many of `hits` hold `v` in `g`.
pub open spec fn count_content(g: Grid, hits: Seq<(int, int)>, v: CellContent) -> nat
    decreases hits.len(),
{
    if hits.len() == 0 {
        0
    } else {
        count_content(g, hits.drop_last(), v) + if g.cell(hits.last().0, hits.last().1).content == v { 1nat } else { 0nat }
    }
}

/// `p` as a pair of integers.
pub open spec fn pos_int(p: (usize, usize)) -> (int, int) {
    (p.0 as int, p.1 as int)
}

pub open spec fn opt_pos_int(o: Option<(usize, usize)>) -> Option<(int, int)> {
    match o {
        Some(p) => Some(pos_int(p)),
        None => None,
    }
}

/// A single step stays inside the grid whenever it succeeds.
pub proof fn lemma_move_inside(rows: int, cols: int, p: (int, int), d: Direction, edge: EdgeBehavior)
    requires
        inside(rows, cols, p.0, p.1),
    ensures
        move_once(rows, cols, p, d, edge) matches Some(q) ==> inside(rows, cols, q.0, q.1),
{
}

/// A walk from a cell inside the grid ends inside the grid whenever it
/// succeeds, under either edge behaviour.
pub proof fn lemma_walk_inside(rows: int, cols: int, p: (int, int), d: Direction, n: nat, edge: EdgeBehavior)
    requires
        inside(rows, cols, p.0, p.1),
    ensures
        walk(rows, cols, p, d, n, edge) matches Some(q) ==> inside(rows, cols, q.0, q.1),
    decreases n,
{
    if n > 0 {
        lemma_walk_inside(rows, cols, p, d, (n - 1) as nat, edge);
        if let Some(q) = walk(rows, cols, p, d, (n - 1) as nat, edge) {
            lemma_move_inside(rows, cols, q, d, edge);
        }
    }
}

/// Once a walk fails, every longer walk fails too.
pub proof fn lemma_walk_fails_onward(rows: int, cols: int, p: (int, int), d: Direction, k: nat, n: nat, edge: EdgeBehavior)
    requires
        k <= n,
        walk(rows, cols, p, d, k, edge) is None,
    ensures
        walk(rows, cols, p, d, n, edge) is None,
    decreases n - k,
{
    if k < n {
        lemma_walk_fails_onward(rows, cols, p, d, k, (n - 1) as nat, edge);
    }
}

/// Under `Stop` a walk that succeeds moves in a straight line.
proof fn lemma_stop_walk_straight(rows: int, cols: int, p: (int, int), d: Direction, n: nat)
    ensures
        walk(rows, cols, p, d, n, EdgeBehavior::Stop) matches Some(q) ==> q == (p.0 + n * dir_delta(d).0, p.1 + n * dir_delta(d).1),
    decreases n,
{
    let (dr, dc) = dir_delta(d);
    if n == 0 {
        assert(n * dr == 0 && n * dc == 0);
    } else {
        lemma_stop_walk_straight(rows, cols, p, d, (n - 1) as nat);
        assert((n - 1) * dr + dr == n * dr) by (nonlinear_arith);
        assert((n - 1) * dc + dc == n * dc) by (nonlinear_arith);
        if let Some(q1) = walk(rows, cols, p, d, (n - 1) as nat, EdgeBehavior::Stop) {
            assert(q1 == (p.0 + (n - 1) * dr, p.1 + (n - 1) * dc));
            if let Some(q) = move_once(rows, cols, q1, d, EdgeBehavior::Stop) {
                assert(q == (q1.0 + dr, q1.1 + dc));
            }
        }
    }
}

/// Under `Stop` every walk longer than the longer side fails, so bounding
/// an unbounded walk by `ray_limit` drops no hit.
pub proof fn lemma_stop_walk_ends(rows: int, cols: int, p: (int, int), d: Direction, n: nat)
    requires
        inside(rows, cols, p.0, p.1),
        n > ray_limit(rows, cols),
    ensures
        walk(rows, cols, p, d, n, EdgeBehavior::Stop) is None,
{
    lemma_stop_walk_straight(rows, cols, p, d, n);
    lemma_walk_inside(rows, cols, p, d, n, EdgeBehavior::Stop);
    let (dr, dc) = dir_delta(d);
    if dr == 1 {
        assert(n * dr == n);
    } else if dr == -1 {
        assert(n * dr == -n);
    } else if dc == 1 {
        assert(n * dc == n);
    } else {
        assert(n * dc == -n);
    }
}

proof fn lemma_concat_contains<A>(a: Seq<A>, b: Seq<A>, x: A)
    ensures
        (a + b).contains(x) <==> (a.contains(x) || b.contains(x)),
{
    if (a + b).contains(x) {
        let k = choose|k: int| 0 <= k < (a + b).len() && (a + b)[k] == x;
        if k < a.len() {
            assert(a[k] == x);
        } else {
            assert(b[k - a.len()] == x);
        }
    }
    if a.contains(x) {
        let k = choose|k: int| 0 <= k < a.len() && a[k] == x;
        assert((a + b)[k] == x);
    }
    if b.contains(x) {
        let k = choose|k: int| 0 <= k < b.len() && b[k] == x;
        assert((a + b)[k + a.len()] == x);
    }
}

/// A rule finds `x` from `p` exactly when one of its directions, from index
/// `i` on, finds it.
pub proof fn lemma_hits_from_members(rows: int, cols: int, p: (int, int), rule: PositionRule, i: int, x: (int, int))
    requires
        0 <= i <= 8,
    ensures
        hits_from(rows, cols, p, rule, i).contains(x) <==> exists|j: int|
            i <= j < 8 && rule.directions.has(all_directions()[j])
                && #[trigger] direction_hits(rows, cols, p, all_directions()[j], rule.distance, rule.edge_behavior).contains(x),
    decreases 8 - i,
{
    if i < 8 {
        lemma_hits_from_members(rows, cols, p, rule, i + 1, x);
        let d = all_directions()[i];
        let here = if rule.directions.has(d) {
            direction_hits(rows, cols, p, d, rule.distance, rule.edge_behavior)
        } else {
            Seq::empty()
        };
        lemma_concat_contains(here, hits_from(rows, cols, p, rule, i + 1), x);
        if exists|j: int|
            i <= j < 8 && rule.directions.has(all_directions()[j])
                && #[trigger] direction_hits(rows, cols, p, all_directions()[j], rule.distance, rule.edge_behavior).contains(x) {
            let j = choose|j: int|
                i <= j < 8 && rule.directions.has(all_directions()[j])
                    && #[trigger] direction_hits(rows, cols, p, all_directions()[j], rule.distance, rule.edge_behavior).contains(x);
            if j > i {
                assert(i + 1 <= j < 8);
            }
        }
    } else {
        assert(hits_from(rows, cols, p, rule, i) =~= Seq::<(int, int)>::empty());
    }
}

/// Every position that a rule finds from a cell inside the grid is inside it.
pub proof fn lemma_rule_hits_inside(rows: int, cols: int, p: (int, int), rule: PositionRule, i: int)
    requires
        inside(rows, cols, p.0, p.1),
    ensures
        forall|k: int| 0 <= k < hits_from(rows, cols, p, rule, i).len()
            ==> #[trigger] inside(rows, cols, hits_from(rows, cols, p, rule, i)[k].0, hits_from(rows, cols, p, rule, i)[k].1),
    decreases 8 - i,
{
    if 0 <= i < 8 {
        lemma_rule_hits_inside(rows, cols, p, rule, i + 1);
        let d = all_directions()[i];
        lemma_direction_hits_inside(rows, cols, p, d, rule.distance, rule.edge_behavior);
        let here = if rule.directions.has(d) {
            direction_hits(rows, cols, p, d, rule.distance, rule.edge_behavior)
        } else {
            Seq::empty()
        };
        let rest = hits_from(rows, cols, p, rule, i + 1);
        assert(hits_from(rows, cols, p, rule, i) == here + rest);
        assert forall|k: int| 0 <= k < (here + rest).len()
            implies #[trigger] inside(rows, cols, (here + rest)[k].0, (here + rest)[k].1) by {
            if k >= here.len() {
                assert((here + rest)[k] == rest[k - here.len()]);
            } else {
                assert((here + rest)[k] == here[k]);
            }
        }
    }
}

proof fn lemma_direction_hits_inside(rows: int, cols: int, p: (int, int), d: Direction, distance: Distance, edge: EdgeBehavior)
    requires
        inside(rows, cols, p.0, p.1),
    ensures
        forall|k: int| 0 <= k < direction_hits(rows, cols, p, d, distance, edge).len()
            ==> #[trigger] inside(rows, cols, direction_hits(rows, cols, p, d, distance, edge)[k].0, direction_hits(rows, cols, p, d, distance, edge)[k].1),
{
    match distance {
        Distance::Finite(n) => {
            lemma_walk_inside(rows, cols, p, d, n as nat, edge);
        },
        Distance::Infinite => {
            lemma_ray_inside(rows, cols, p, d, edge, 1, ray_limit(rows, cols));
        },
    }
}

proof fn lemma_ray_inside(rows: int, cols: int, p: (int, int), d: Direction, edge: EdgeBehavior, k: int, limit: int)
    requires
        inside(rows, cols, p.0, p.1),
    ensures
        forall|j: int| 0 <= j < ray(rows, cols, p, d, edge, k, limit).len()
            ==> #[trigger] inside(rows, cols, ray(rows, cols, p, d, edge, k, limit)[j].0, ray(rows, cols, p, d, edge, k, limit)[j].1),
    decreases limit + 1 - k,
{
    if 1 <= k <= limit {
        lemma_ray_inside(rows, cols, p, d, edge, k + 1, limit);
        lemma_walk_inside(rows, cols, p, d, k as nat, edge);
        if let Some(q) = walk(rows, cols, p, d, k as nat, edge) {
            let rest = ray(rows, cols, p, d, edge, k + 1, limit);
            assert forall|j: int| 0 <= j < (seq![q] + rest).len()
                implies #[trigger] inside(rows, cols, (seq![q] + rest)[j].0, (seq![q] + rest)[j].1) by {
                if j > 0 {
                    assert((seq![q] + rest)[j] == rest[j - 1]);
                }
            }
        }
    }
}

impl Grid {
    /// One coordinate moved by `delta`, or `None` past the edge under `Stop`.
    pub fn wrap_or_stop(&self, current: usize, max: usize, delta: i32, edge_behavior: EdgeBehavior) -> (r: Option<usize>)
        requires
            current < max,
            -1 <= delta <= 1,
        ensures
            match r {
                Some(x) => step(current as int, max as int, delta as int, edge_behavior) == Some(x as int),
                None => step(current as int, max as int, delta as int, edge_behavior) is None,
            },
    {
        match edge_behavior {
            EdgeBehavior::Stop => {
                if (delta < 0 && current == 0) || (delta > 0 && current == max - 1) {
                    None
                } else if delta < 0 {
                    Some(current - 1)
                } else if delta > 0 {
                    Some(current + 1)
                } else {
                    Some(current)
                }
            },
            EdgeBehavior::Wrap => {
                if delta < 0 {
                    if current == 0 {
                        proof {
                            assert((current - 1) % (max as int) == max - 1) by {
                                vstd::arithmetic::div_mod::lemma_fundamental_div_mod_converse(-1, max as int, -1, max - 1);
                            }
                        }
                        Some(max - 1)
                    } else {
                        proof {
                            vstd::arithmetic::div_mod::lemma_small_mod((current - 1) as nat, max as nat);
                        }
                        Some(current - 1)
                    }
                } else if delta > 0 {
                    if current == max - 1 {
                        proof {
                            vstd::arithmetic::div_mod::lemma_mod_self_0(max as int);
                        }
                        Some(0)
                    } else {
                        proof {
                            vstd::arithmetic::div_mod::lemma_small_mod((current + 1) as nat, max as nat);
                        }
                        Some(current + 1)
                    }
                } else {
                    proof {
                        vstd::arithmetic::div_mod::lemma_small_mod(current as nat, max as nat);
                    }
                    Some(current)
                }
            },
        }
    }

    /// One step from `pos` in `direction`.
    fn move_once(&self, pos: (usize, usize), direction: Direction, edge_behavior: EdgeBehavior) -> (r: Option<(usize, usize)>)
        requires
            self.inside(pos.0 as int, pos.1 as int),
        ensures
            opt_pos_int(r) == move_once(self.rows as int, self.cols as int, pos_int(pos), direction, edge_behavior),
    {
        let (dr, dc): (i32, i32) = match direction {
            Direction::Left => (0, -1),
            Direction::Right => (0, 1),
            Direction::Up => (-1, 0),
            Direction::Down => (1, 0),
            Direction::LeftUp => (-1, -1),
            Direction::LeftDown => (1, -1),
            Direction::RightUp => (-1, 1),
            Direction::RightDown => (1, 1),
        };
        let col = match self.wrap_or_stop(pos.1, self.cols, dc, edge_behavior) {
            Some(c) => c,
            None => return None,
        };
        let row = match self.wrap_or_stop(pos.0, self.rows, dr, edge_behavior) {
            Some(r) => r,
            None => return None,
        };
        Some((row, col))
    }

    /// The position `distance` steps from `from` in `direction`, if no step
    /// leaves the grid.
    pub fn search_cell(&self, from: (usize, usize), direction: Direction, distance: usize, edge_behavior: EdgeBehavior) -> (r: Option<(usize, usize)>)
        requires
            self.inside(from.0 as int, from.1 as int),
        ensures
            opt_pos_int(r) == walk(self.rows as int, self.cols as int, pos_int(from), direction, distance as nat, edge_behavior),
            r matches Some(q) ==> self.inside(q.0 as int, q.1 as int),
    {
        let ghost rows = self.rows as int;
        let ghost cols = self.cols as int;
        let mut cur = from;
        let mut i: usize = 0;
        while i < distance
            invariant
                0 <= i <= distance,
                self.inside(cur.0 as int, cur.1 as int),
                walk(rows, cols, pos_int(from), direction, i as nat, edge_behavior) == Some(pos_int(cur)),
                rows == self.rows,
                cols == self.cols,
            decreases distance - i,
        {
            match self.move_once(cur, direction, edge_behavior) {
                Some(next) => {
                    proof {
                        lemma_move_inside(rows, cols, pos_int(cur), direction, edge_behavior);
                    }
                    cur = next;
                },
                None => {
                    proof {
                        lemma_walk_fails_onward(rows, cols, pos_int(from), direction, (i + 1) as nat, distance as nat, edge_behavior);
                    }
                    return None;
                },
            }
            i = i + 1;
        }
        Some(cur)
    }

    /// The cell at `(r, c)`, which must lie inside.
    pub(crate) fn cell_at(&self, r: usize, c: usize) -> (cell: crate::cell::Cell)
        requires
            self.wf(),
            self.inside(r as int, c as int),
        ensures
            cell == self.cell(r as int, c as int),
    {
        let n = self.cells.len();
        proof {
            assert(0 <= r * self.cols) by (nonlinear_arith);
            lemma_flat_index(self.rows as int, self.cols as int, r as int, c as int);
        }
        self.cells[r * self.cols + c]
    }

    /// Appends the hits of an unbounded walk from `from` in `direction`.
    fn push_ray(&self, from: (usize, usize), direction: Direction, edge_behavior: EdgeBehavior, results: &mut Vec<(usize, usize)>)
        requires
            self.inside(from.0 as int, from.1 as int),
        ensures
            ints(final(results)@) == ints(old(results)@) + ray(
                self.rows as int,
                self.cols as int,
                pos_int(from),
                direction,
                edge_behavior,
                1,
                ray_limit(self.rows as int, self.cols as int),
            ),
    {
        let ghost rows = self.rows as int;
        let ghost cols = self.cols as int;
        let ghost start = ints(results@);
        let limit = if self.rows >= self.cols { self.rows } else { self.cols };
        let mut cur = from;
        let mut k: usize = 0;
        while k < limit
            invariant
                0 <= k <= limit,
                limit as int == ray_limit(rows, cols),
                start == ints(old(results)@),
                rows == self.rows,
                cols == self.cols,
                self.inside(cur.0 as int, cur.1 as int),
                walk(rows, cols, pos_int(from), direction, k as nat, edge_behavior) == Some(pos_int(cur)),
                ints(results@) + ray(rows, cols, pos_int(from), direction, edge_behavior, k + 1, limit as int)
                    == start + ray(rows, cols, pos_int(from), direction, edge_behavior, 1, limit as int),
            decreases limit - k,
        {
            match self.move_once(cur, direction, edge_behavior) {
                Some(next) => {
                    proof {
                        lemma_move_inside(rows, cols, pos_int(cur), direction, edge_behavior);
                        let rest = ray(rows, cols, pos_int(from), direction, edge_behavior, k + 2, limit as int);
                        assert(ray(rows, cols, pos_int(from), direction, edge_behavior, k + 1, limit as int)
                            == seq![pos_int(next)] + rest);
                        lemma_ints_push(results@, next);
                        assert(ints(results@) + (seq![pos_int(next)] + rest) =~= ints(results@).push(pos_int(next)) + rest);
                    }
                    results.push(next);
                    cur = next;
                    k = k + 1;
                },
                None => {
                    proof {
                        assert(walk(rows, cols, pos_int(from), direction, (k + 1) as nat, edge_behavior) is None);
                        assert(ray(rows, cols, pos_int(from), direction, edge_behavior, k + 1, limit as int) == Seq::<(int, int)>::empty());
                        assert(ints(results@) + Seq::<(int, int)>::empty() =~= ints(results@));
                    }
                    return;
                },
            }
        }
        proof {
            assert(ray(rows, cols, pos_int(from), direction, edge_behavior, k + 1, limit as int) == Seq::<(int, int)>::empty());
            assert(ints(results@) + Seq::<(int, int)>::empty() =~= ints(results@));
        }
    }

    /// Every position that `position_rule` finds from `from`: directions in
    /// enumeration order, each unbounded walk nearest first.
    pub fn search_cells(&self, from: (usize, usize), position_rule: &PositionRule) -> (r: Vec<(usize, usize)>)
        requires
            self.inside(from.0 as int, from.1 as int),
        ensures
            ints(r@) == rule_hits(self.rows as int, self.cols as int, pos_int(from), *position_rule),
            forall|k: int| 0 <= k < r@.len() ==> #[trigger] self.inside(r@[k].0 as int, r@[k].1 as int),
    {
        let ghost rows = self.rows as int;
        let ghost cols = self.cols as int;
        let ghost p = pos_int(from);
        let mut results: Vec<(usize, usize)> = Vec::new();
        let mut i: usize = 0;
        proof {
            assert(ints(results@) =~= Seq::<(int, int)>::empty());
            assert(ints(results@) + hits_from(rows, cols, p, *position_rule, 0) =~= hits_from(rows, cols, p, *position_rule, 0));
        }
        while i < 8
            invariant
                0 <= i <= 8,
                rows == self.rows,
                cols == self.cols,
                p == pos_int(from),
                self.inside(from.0 as int, from.1 as int),
                ints(results@) + hits_from(rows, cols, p, *position_rule, i as int) == rule_hits(rows, cols, p, *position_rule),
            decreases 8 - i,
        {
            let direction = direction_at(i);
            let ghost before = ints(results@);
            let ghost here = if position_rule.directions.has(direction) {
                direction_hits(rows, cols, p, direction, position_rule.distance, position_rule.edge_behavior)
            } else {
                Seq::empty()
            };
            let ghost rest = hits_from(rows, cols, p, *position_rule, i + 1);
            proof {
                assert(hits_from(rows, cols, p, *position_rule, i as int) == here + rest);
            }
            if position_rule.directions.contains(direction) {
                match position_rule.distance {
                    Distance::Finite(dist) => {
                        match self.search_cell(from, direction, dist, position_rule.edge_behavior) {
                            Some(q) => {
                                proof {
                                    lemma_ints_push(results@, q);
                                }
                                results.push(q);
                                proof {
                                    assert(ints(results@) == before + here);
                                }
                            },
                            None => {
                                proof {
                                    assert(before + here =~= before);
                                }
                            },
                        }
                    },
                    Distance::Infinite => {
                        self.push_ray(from, direction, position_rule.edge_behavior, &mut results);
                    },
                }
            } else {
                proof {
                    assert(before + here =~= before);
                }
            }
            proof {
                assert(ints(results@) == before + here);
                assert(before + (here + rest) =~= (before + here) + rest);
            }
            i = i + 1;
        }
        proof {
            assert(hits_from(rows, cols, p, *position_rule, 8) == Seq::<(int, int)>::empty());
            assert(ints(results@) + Seq::<(int, int)>::empty() =~= ints(results@));
            lemma_rule_hits_inside(rows, cols, p, *position_rule, 0);
            assert forall|k: int| 0 <= k < results@.len() implies #[trigger] self.inside(results@[k].0 as int, results@[k].1 as int) by {
                assert(ints(results@)[k] == pos_int(results@[k]));
            }
        }
        results
    }

    /// Whether `rule` finds `b` from `a`.
    pub fn is_neighbor(&self, rule: &PositionRule, a: (usize, usize), b: (usize, usize)) -> (r: bool)
        requires
            self.inside(a.0 as int, a.1 as int),
        ensures
            r == rule_hits(self.rows as int, self.cols as int, pos_int(a), *rule).contains(pos_int(b)),
    {
        let cells = self.search_cells(a, rule);
        let ghost hits = rule_hits(self.rows as int, self.cols as int, pos_int(a), *rule);
        let mut k: usize = 0;
        while k < cells.len()
            invariant
                0 <= k <= cells@.len(),
                ints(cells@) == hits,
                hits == rule_hits(self.rows as int, self.cols as int, pos_int(a), *rule),
                forall|j: int| 0 <= j < k ==> hits[j] != pos_int(b),
            decreases cells@.len() - k,
        {
            proof {
                assert(hits[k as int] == pos_int(cells@[k as int]));
            }
            if cells[k].0 == b.0 && cells[k].1 == b.1 {
                proof {
                    assert(hits[k as int] == pos_int(b));
                }
                return true;
            }
            k = k + 1;
        }
        false
    }

    /// How many of the cells that `rule` finds from `from` satisfy
    /// `predicate`. The predicate is called once per hit, in the order of
    /// `search_cells`, on that hit's cell; `outcomes` below are its answers.
    pub fn count_occurrences<F: Fn(&Cell) -> bool>(&self, from: (usize, usize), rule: &PositionRule, predicate: F) -> (r: usize)
        requires
            self.wf(),
            self.inside(from.0 as int, from.1 as int),
            forall|c: &Cell| #[trigger] predicate.requires((c,)),
        ensures
            r <= rule_hits(self.rows as int, self.cols as int, pos_int(from), *rule).len(),
            exists|outcomes: Seq<bool>| {
                let hits = rule_hits(self.rows as int, self.cols as int, pos_int(from), *rule);
                &&& outcomes.len() == hits.len()
                &&& forall|k: int| 0 <= k < hits.len()
                    ==> predicate.ensures((&self.cell(hits[k].0, hits[k].1),), #[trigger] outcomes[k])
                &&& r == #[trigger] count_true(outcomes)
            },
    {
        let cells = self.search_cells(from, rule);
        let ghost hits = rule_hits(self.rows as int, self.cols as int, pos_int(from), *rule);
        let ghost mut outcomes: Seq<bool> = Seq::empty();
        let mut count: usize = 0;
        let mut k: usize = 0;
        while k < cells.len()
            invariant
                self.wf(),
                forall|c: &Cell| #[trigger] predicate.requires((c,)),
                ints(cells@) == hits,
                hits == rule_hits(self.rows as int, self.cols as int, pos_int(from), *rule),
                forall|j: int| 0 <= j < cells@.len() ==> #[trigger] self.inside(cells@[j].0 as int, cells@[j].1 as int),
                0 <= k <= cells@.len(),
                outcomes.len() == k,
                forall|j: int| 0 <= j < k ==> predicate.ensures((&self.cell(hits[j].0, hits[j].1),), #[trigger] outcomes[j]),
                count == count_true(outcomes),
                count <= k,
            decreases cells@.len() - k,
        {
            let (r, c) = cells[k];
            proof {
                assert(hits[k as int] == pos_int(cells@[k as int]));
            }
            let cell = self.cell_at(r, c);
            let b = predicate(&cell);
            proof {
                let next = outcomes.push(b);
                assert(next.drop_last() =~= outcomes);
                outcomes = next;
            }
            if b {
                count = count + 1;
            }
            k = k + 1;
        }
        count
    }

    /// How many positions that `rule` finds from `from` hold `variant`.
    fn count_variant(&self, from: (usize, usize), rule: &PositionRule, variant: CellContent) -> (r: usize)
        requires
            self.wf(),
            self.inside(from.0 as int, from.1 as int),
        ensures
            r == count_content(*self, rule_hits(self.rows as int, self.cols as int, pos_int(from), *rule), variant),
    {
        let cells = self.search_cells(from, rule);
        self.count_in(&cells, variant)
    }

    /// How many of `positions` hold `variant`.
    fn count_in(&self, positions: &Vec<(usize, usize)>, variant: CellContent) -> (r: usize)
        requires
            self.wf(),
            forall|k: int| 0 <= k < positions@.len() ==> #[trigger] self.inside(positions@[k].0 as int, positions@[k].1 as int),
        ensures
            r == count_content(*self, ints(positions@), variant),
            r <= positions@.len(),
    {
        let mut count: usize = 0;
        let mut k: usize = 0;
        while k < positions.len()
            invariant
                0 <= k <= positions@.len(),
                self.wf(),
                forall|j: int| 0 <= j < positions@.len() ==> #[trigger] self.inside(positions@[j].0 as int, positions@[j].1 as int),
                count == count_content(*self, ints(positions@).take(k as int), variant),
                count <= k,
            decreases positions@.len() - k,
        {
            let (r, c) = positions[k];
            proof {
                assert(ints(positions@).take(k + 1).drop_last() =~= ints(positions@).take(k as int));
                assert(ints(positions@).take(k + 1).last() == pos_int(positions@[k as int]));
            }
            if self.cell_at(r, c).content == variant {
                count = count + 1;
            }
            k = k + 1;
        }
        proof {
            assert(ints(positions@).take(k as int) =~= ints(positions@));
        }
        count
    }
}

/// The direction at index `i` of the enumeration order.
fn direction_at(i: usize) -> (d: Direction)
    requires
        i < 8,
    ensures
        d == all_directions()[i as int],
{
    match i {
        0 => Direction::Left,
        1 => Direction::Right,
        2 => Direction::Up,
        3 => Direction::Down,
        4 => Direction::LeftUp,
        5 => Direction::LeftDown,
        6 => Direction::RightUp,
        _ => Direction::RightDown,
    }
}

/// A list of positions as pairs of integers.
pub open spec fn ints(v: Seq<(usize, usize)>) -> Seq<(int, int)> {
    v.map_values(|p: (usize, usize)| pos_int(p))
}

proof fn lemma_ints_push(v: Seq<(usize, usize)>, x: (usize, usize))
    ensures
        ints(v.push(x)) == ints(v).push(pos_int(x)),
{
    assert(ints(v.push(x)) =~= ints(v).push(pos_int(x)));
}

/// The position of the `i`-th cell in row-major order.
pub open spec fn pos_of(cols: int, i: int) -> (int, int) {
    (i / cols, i % cols)
}

pub proof fn lemma_pos_of_inside(rows: int, cols: int, i: int)
    requires
        0 <= rows,
        0 <= cols,
        0 <= i < rows * cols,
    ensures
        cols > 0,
        inside(rows, cols, pos_of(cols, i).0, pos_of(cols, i).1),
{
    assert(cols > 0) by (nonlinear_arith)
        requires
            0 <= rows,
            0 <= cols,
            0 <= i < rows * cols,
    ;
    vstd::arithmetic::div_mod::lemma_div_pos_is_pos(i, cols);
    vstd::arithmetic::div_mod::lemma_mod_pos_bound(i, cols);
    assert(rows * cols == cols * rows) by (nonlinear_arith);
    vstd::arithmetic::div_mod::lemma_multiply_divide_lt(i, cols, rows);
}

/// The sum, over the first `n` cells in row-major order, of how many
/// positions that `rule` finds from each hold `v`.
pub open spec fn occurrence_total(g: Grid, rule: PositionRule, v: CellContent, n: int) -> nat
    decreases n,
{
    if n <= 0 {
        0
    } else {
        occurrence_total(g, rule, v, n - 1) + count_content(
            g,
            rule_hits(g.rows as int, g.cols as int, pos_of(g.cols as int, n - 1), rule),
            v,
        )
    }
}

proof fn lemma_occurrence_total_grows(g: Grid, rule: PositionRule, v: CellContent, m: int, n: int)
    requires
        0 <= m <= n,
    ensures
        occurrence_total(g, rule, v, m) <= occurrence_total(g, rule, v, n),
    decreases n - m,
{
    if m < n {
        lemma_occurrence_total_grows(g, rule, v, m, n - 1);
    }
}

/// Whether the cell at row-major index `i` finds exactly `na` cells holding
/// `a` and `nb` cells holding `b` under `rule`.
pub open spec fn pair_at(g: Grid, rule: PositionRule, a: CellContent, na: int, b: CellContent, nb: int, i: int) -> bool {
    let hits = rule_hits(g.rows as int, g.cols as int, pos_of(g.cols as int, i), rule);
    count_content(g, hits, a) == na && count_content(g, hits, b) == nb
}

impl Grid {
    /// Whether, summed over every cell, the positions that `rule` finds
    /// holding `variant` number exactly `number`.
    pub fn occur(&self, variant: CellContent, number: usize, rule: &PositionRule) -> (r: bool)
        requires
            self.wf(),
        ensures
            r == (occurrence_total(*self, *rule, variant, self.rows * self.cols) == number),
    {
        let n = self.cells.len();
        let mut count: usize = 0;
        let mut i: usize = 0;
        while i < n
            invariant
                self.wf(),
                n == self.rows * self.cols,
                0 <= i <= n,
                count == occurrence_total(*self, *rule, variant, i as int),
                count <= number,
            decreases n - i,
        {
            proof {
                lemma_pos_of_inside(self.rows as int, self.cols as int, i as int);
            }
            let row = i / self.cols;
            let col = i % self.cols;
            let here = self.count_variant((row, col), rule, variant);
            if here > number - count {
                proof {
                    lemma_occurrence_total_grows(*self, *rule, variant, i + 1, n as int);
                }
                return false;
            }
            count = count + here;
            i = i + 1;
        }
        count == number
    }

    /// Whether some cell finds exactly `number_a` cells holding `variant_a`
    /// and `number_b` cells holding `variant_b` under `rule`.
    pub fn is_pair_exist(
        &self,
        variant_a: CellContent,
        number_a: usize,
        variant_b: CellContent,
        number_b: usize,
        rule: &PositionRule,
    ) -> (r: bool)
        requires
            self.wf(),
        ensures
            r == exists|i: int|
                0 <= i < self.rows * self.cols && #[trigger] pair_at(*self, *rule, variant_a, number_a as int, variant_b, number_b as int, i),
    {
        let n = self.cells.len();
        let mut i: usize = 0;
        while i < n
            invariant
                self.wf(),
                n == self.rows * self.cols,
                0 <= i <= n,
                forall|j: int| 0 <= j < i ==> !#[trigger] pair_at(*self, *rule, variant_a, number_a as int, variant_b, number_b as int, j),
            decreases n - i,
        {
            proof {
                lemma_pos_of_inside(self.rows as int, self.cols as int, i as int);
            }
            let row = i / self.cols;
            let col = i % self.cols;
            let count_a = self.count_variant((row, col), rule, variant_a);
            let count_b = self.count_variant((row, col), rule, variant_b);
            if count_a == number_a && count_b == number_b {
                proof {
                    assert(pair_at(*self, *rule, variant_a, number_a as int, variant_b, number_b as int, i as int));
                }
                return true;
            }
            i = i + 1;
        }
        false
    }
}

/// How many of `outcomes` are true.
pub open spec fn count_true(outcomes: Seq<bool>) -> nat
    decreases outcomes.len(),
{
    if outcomes.len() == 0 {
        0
    } else {
        count_true(outcomes.drop_last()) + if outcomes.last() { 1nat } else { 0nat }
    }
}

/// Counting predicate answers is monotone: where every answer of one call
/// implies the answer of another at the same hit, its count is no larger;
/// no count exceeds the number of hits, all-true answers count them all,
/// and all-false answers count none.
pub proof fn lemma_count_true_monotone(weaker: Seq<bool>, stronger: Seq<bool>)
    requires
        weaker.len() == stronger.len(),
        forall|k: int| 0 <= k < weaker.len() && #[trigger] weaker[k] ==> stronger[k],
    ensures
        count_true(weaker) <= count_true(stronger) <= stronger.len(),
        (forall|k: int| 0 <= k < stronger.len() ==> #[trigger] stronger[k]) ==> count_true(stronger) == stronger.len(),
        (forall|k: int| 0 <= k < weaker.len() ==> !#[trigger] weaker[k]) ==> count_true(weaker) == 0,
    decreases weaker.len(),
{
    if weaker.len() > 0 {
        let (w, s) = (weaker.drop_last(), stronger.drop_last());
        assert forall|k: int| 0 <= k < w.len() && #[trigger] w[k] implies s[k] by {
            assert(weaker[k]);
        }
        lemma_count_true_monotone(w, s);
        if forall|k: int| 0 <= k < stronger.len() ==> #[trigger] stronger[k] {
            assert forall|k: int| 0 <= k < s.len() implies #[trigger] s[k] by {
                assert(stronger[k]);
            }
            assert(stronger[stronger.len() - 1]);
        }
        if forall|k: int| 0 <= k < weaker.len() ==> !#[trigger] weaker[k] {
            assert forall|k: int| 0 <= k < w.len() implies !#[trigger] w[k] by {
                assert(!weaker[k]);
            }
            assert(!weaker[weaker.len() - 1]);
        }
        assert(weaker[weaker.len() - 1] ==> stronger[stronger.len() - 1]);
    }
}

} // verus!
