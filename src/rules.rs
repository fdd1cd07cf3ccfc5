use vstd::prelude::*;
use crate::cell::{Cell, CellContent};
use crate::grid::{Grid, GridView};
use crate::minefield::neighbors_with;

verus! {

/// A group of positions `(row, col)` that some rules treat together.
#[derive(Clone, Debug)]
pub struct Region {
    pub id: usize,
    pub cells: Vec<(usize, usize)>,
}

/// One condition that a solved puzzle must meet. Positions are `(row, col)`.
#[derive(Clone, Debug)]
pub enum Rule {
    /// No two filled cells of the row hold the same content.
    UniqueInRow(usize),
    /// No two filled cells of the column hold the same content.
    UniqueInColumn(usize),
    /// No two filled cells of the region with this id hold the same content.
    UniqueInRegion(usize),
    /// The numbers at the listed positions add up to the target.
    SumEquals(Vec<(usize, usize)>, i32),
    /// The cell at `(row, col)` has exactly this many adjacent mines.
    AdjacentMines(usize, usize, u8),
    /// The grid holds exactly this many mines.
    TotalMines(u32),
    TentsInRow(usize, u8),
    TentsInColumn(usize, u8),
    /// Each tree, in row-major order, takes the first untaken tent around it;
    /// no tent is left over.
    TentTreePairing,
    /// No tent touches another, diagonals included.
    NoAdjacentTents,
    WaterInRow(usize, u8),
    WaterInColumn(usize, u8),
    /// In every region, ordered top to bottom, no empty cell follows water.
    WaterFlowsUpward,
}

/// A rule with a description for people.
#[derive(Clone, Debug)]
pub struct PuzzleRule {
    pub description: String,
    pub condition: Rule,
}

/// Whether a cell holds something.
pub open spec fn filled(c: CellContent) -> bool {
    !(c is Empty)
}

/// How many of the first `n` columns of `row` lie inside and hold `v`.
pub open spec fn row_count(g: GridView, row: int, v: CellContent, n: int) -> nat
    decreases n,
{
    if n <= 0 {
        0
    } else {
        row_count(g, row, v, n - 1) + if g.inside(row, n - 1) && g.cell(row, n - 1).content == v { 1nat } else { 0nat }
    }
}

/// How many of the first `n` rows of `col` lie inside and hold `v`.
pub open spec fn col_count(g: GridView, col: int, v: CellContent, n: int) -> nat
    decreases n,
{
    if n <= 0 {
        0
    } else {
        col_count(g, col, v, n - 1) + if g.inside(n - 1, col) && g.cell(n - 1, col).content == v { 1nat } else { 0nat }
    }
}

/// How many of the first `n` cells hold `v`.
pub open spec fn total_count(cells: Seq<Cell>, v: CellContent, n: int) -> nat
    decreases n,
{
    if n <= 0 {
        0
    } else {
        total_count(cells, v, n - 1) + if cells[n - 1].content == v { 1nat } else { 0nat }
    }
}

pub open spec fn unique_in_row(g: GridView, row: int) -> bool {
    forall|c1: int, c2: int|
        0 <= c1 < c2 < g.cols && g.inside(row, c1) && filled(#[trigger] g.cell(row, c1).content)
            ==> g.cell(row, c1).content != #[trigger] g.cell(row, c2).content
}

pub open spec fn unique_in_column(g: GridView, col: int) -> bool {
    forall|r1: int, r2: int|
        0 <= r1 < r2 < g.rows && g.inside(r1, col) && filled(#[trigger] g.cell(r1, col).content)
            ==> g.cell(r1, col).content != #[trigger] g.cell(r2, col).content
}

/// The content at a listed position, or `None` outside the grid.
pub open spec fn content_of(g: GridView, p: (usize, usize)) -> Option<CellContent> {
    if g.inside(p.0 as int, p.1 as int) { Some(g.cell(p.0 as int, p.1 as int).content) } else { None }
}

/// No two listed positions inside the grid hold the same filled content.
pub open spec fn unique_among(g: GridView, cells: Seq<(usize, usize)>) -> bool {
    forall|i: int, j: int|
        0 <= i < j < cells.len() && #[trigger] content_of(g, cells[i]) is Some && filled(content_of(g, cells[i])->0)
            ==> content_of(g, cells[i]) != #[trigger] content_of(g, cells[j])
}

/// The index of the first region with this id, from `k` on, or the length.
pub open spec fn region_index(regions: Seq<Region>, id: usize, k: int) -> int
    decreases regions.len() - k,
{
    if k < 0 || k >= regions.len() {
        regions.len() as int
    } else if regions[k].id == id {
        k
    } else {
        region_index(regions, id, k + 1)
    }
}

/// The number a listed position shows; zero outside the grid or for other
/// contents.
pub open spec fn number_at(g: GridView, p: (usize, usize)) -> nat {
    match content_of(g, p) {
        Some(CellContent::Number(n)) => n as nat,
        _ => 0,
    }
}

/// The sum of the numbers at the first `n` listed positions.
pub open spec fn number_sum(g: GridView, cells: Seq<(usize, usize)>, n: int) -> nat
    decreases n,
{
    if n <= 0 {
        0
    } else {
        number_sum(g, cells, n - 1) + number_at(g, cells[n - 1])
    }
}

/// The positions among the first `n` cells, in row-major order, that hold `v`.
pub open spec fn positions_with(g: GridView, v: CellContent, n: int) -> Seq<(usize, usize)>
    decreases n,
{
    if n <= 0 {
        Seq::empty()
    } else {
        let prev = positions_with(g, v, n - 1);
        if g.cells[n - 1].content == v {
            prev.push((((n - 1) / g.cols as int) as usize, ((n - 1) % g.cols as int) as usize))
        } else {
            prev
        }
    }
}

/// Whether two positions touch, diagonals included, or coincide.
pub open spec fn touching(a: (usize, usize), b: (usize, usize)) -> bool {
    -1 <= a.0 - b.0 <= 1 && -1 <= a.1 - b.1 <= 1
}

/// The index of the first of `tents`, from `k` on, that touches `t`, or the length.
pub open spec fn first_touching(tents: Seq<(usize, usize)>, t: (usize, usize), k: int) -> int
    decreases tents.len() - k,
{
    if k < 0 || k >= tents.len() {
        tents.len() as int
    } else if touching(tents[k], t) {
        k
    } else {
        first_touching(tents, t, k + 1)
    }
}

/// The tents left once the first `n` trees have each taken the first tent
/// that touches them; a taken tent's place goes to the last one.
pub open spec fn unpaired(tents: Seq<(usize, usize)>, trees: Seq<(usize, usize)>, n: int) -> Seq<(usize, usize)>
    decreases n,
{
    if n <= 0 || n > trees.len() {
        tents
    } else {
        let prev = unpaired(tents, trees, n - 1);
        let i = first_touching(prev, trees[n - 1], 0);
        if i < prev.len() {
            prev.update(i, prev.last()).drop_last()
        } else {
            prev
        }
    }
}

/// In the region's list, water at `i` and an empty cell at `j` where `j`
/// comes after `i` once the list is ordered by row, ties kept in list order.
pub open spec fn water_above_empty(g: GridView, cells: Seq<(usize, usize)>, i: int, j: int) -> bool {
    &&& 0 <= i < cells.len()
    &&& 0 <= j < cells.len()
    &&& content_of(g, cells[i]) == Some(CellContent::Water)
    &&& content_of(g, cells[j]) == Some(CellContent::Empty)
    &&& (cells[i].0 < cells[j].0 || (cells[i].0 == cells[j].0 && i < j))
}

pub open spec fn water_settled(g: GridView, regions: Seq<Region>) -> bool {
    forall|k: int, i: int, j: int| 0 <= k < regions.len() ==> !#[trigger] water_above_empty(g, regions[k].cells@, i, j)
}

/// What a rule demands of a grid with the given regions.
pub open spec fn rule_holds(rule: Rule, g: GridView, regions: Seq<Region>) -> bool {
    match rule {
        Rule::UniqueInRow(row) => unique_in_row(g, row as int),
        Rule::UniqueInColumn(col) => unique_in_column(g, col as int),
        Rule::UniqueInRegion(id) => {
            let k = region_index(regions, id, 0);
            k < regions.len() ==> unique_among(g, regions[k].cells@)
        },
        Rule::SumEquals(cells, target) => number_sum(g, cells@, cells@.len() as int) == target as int,
        Rule::AdjacentMines(row, col, n) => neighbors_with(g, row as int, col as int, CellContent::Mine) == n as nat,
        Rule::TotalMines(n) => total_count(g.cells, CellContent::Mine, g.cells.len() as int) == n as nat,
        Rule::TentsInRow(row, n) => row_count(g, row as int, CellContent::Tent, g.cols as int) == n as nat,
        Rule::TentsInColumn(col, n) => col_count(g, col as int, CellContent::Tent, g.rows as int) == n as nat,
        Rule::TentTreePairing => {
            let tents = positions_with(g, CellContent::Tent, g.cells.len() as int);
            let trees = positions_with(g, CellContent::Tree, g.cells.len() as int);
            unpaired(tents, trees, trees.len() as int).len() == 0
        },
        Rule::NoAdjacentTents => forall|r: int, c: int|
            #![trigger g.cell(r, c)]
            g.inside(r, c) && g.cell(r, c).content == CellContent::Tent ==> neighbors_with(g, r, c, CellContent::Tent) == 0,
        Rule::WaterInRow(row, n) => row_count(g, row as int, CellContent::Water, g.cols as int) == n as nat,
        Rule::WaterInColumn(col, n) => col_count(g, col as int, CellContent::Water, g.rows as int) == n as nat,
        Rule::WaterFlowsUpward => water_settled(g, regions),
    }
}

/// How many cells of `row` hold `variant`.
fn count_in_row(grid: &Grid, row: usize, variant: CellContent) -> (n: usize)
    requires
        grid.wf(),
    ensures
        n == row_count(grid@, row as int, variant, grid.cols as int),
{
    let mut n: usize = 0;
    let mut c: usize = 0;
    while c < grid.cols
        invariant
            grid.wf(),
            0 <= c <= grid.cols,
            n == row_count(grid@, row as int, variant, c as int),
            n <= c,
        decreases grid.cols - c,
    {
        if row < grid.rows && grid.cell_at(row, c).content == variant {
            n = n + 1;
        }
        c = c + 1;
    }
    n
}

/// How many cells of `col` hold `variant`.
fn count_in_column(grid: &Grid, col: usize, variant: CellContent) -> (n: usize)
    requires
        grid.wf(),
    ensures
        n == col_count(grid@, col as int, variant, grid.rows as int),
{
    let mut n: usize = 0;
    let mut r: usize = 0;
    while r < grid.rows
        invariant
            grid.wf(),
            0 <= r <= grid.rows,
            n == col_count(grid@, col as int, variant, r as int),
            n <= r,
        decreases grid.rows - r,
    {
        if col < grid.cols && grid.cell_at(r, col).content == variant {
            n = n + 1;
        }
        r = r + 1;
    }
    n
}

/// How many cells of the grid hold `variant`.
fn count_in_grid(grid: &Grid, variant: CellContent) -> (n: usize)
    ensures
        n == total_count(grid.cells@, variant, grid@.cells.len() as int),
{
    let mut n: usize = 0;
    let mut i: usize = 0;
    while i < grid.cells.len()
        invariant
            0 <= i <= grid.cells@.len(),
            n == total_count(grid.cells@, variant, i as int),
            n <= i,
        decreases grid.cells@.len() - i,
    {
        if grid.cells[i].content == variant {
            n = n + 1;
        }
        i = i + 1;
    }
    n
}

fn validate_unique_in_row(row: usize, grid: &Grid) -> (ok: bool)
    requires
        grid.wf(),
    ensures
        ok == unique_in_row(grid@, row as int),
{
    if row >= grid.rows {
        return true;
    }
    let mut c1: usize = 0;
    while c1 < grid.cols
        invariant
            grid.wf(),
            row < grid.rows,
            0 <= c1 <= grid.cols,
            forall|a: int, b: int|
                0 <= a < c1 && a < b < grid.cols && filled(#[trigger] grid@.cell(row as int, a).content)
                    ==> grid@.cell(row as int, a).content != #[trigger] grid@.cell(row as int, b).content,
        decreases grid.cols - c1,
    {
        let x = grid.cell_at(row, c1).content;
        if x != CellContent::Empty {
            let mut c2: usize = c1 + 1;
            while c2 < grid.cols
                invariant
                    grid.wf(),
                    row < grid.rows,
                    c1 < c2 <= grid.cols,
                    x == grid@.cell(row as int, c1 as int).content,
                    filled(x),
                    forall|b: int| c1 < b < c2 ==> x != #[trigger] grid@.cell(row as int, b).content,
                decreases grid.cols - c2,
            {
                if grid.cell_at(row, c2).content == x {
                    proof {
                        assert(filled(grid@.cell(row as int, c1 as int).content));
                        assert(grid@.cell(row as int, c1 as int).content == grid@.cell(row as int, c2 as int).content);
                    }
                    return false;
                }
                c2 = c2 + 1;
            }
        }
        c1 = c1 + 1;
    }
    true
}

fn validate_unique_in_column(col: usize, grid: &Grid) -> (ok: bool)
    requires
        grid.wf(),
    ensures
        ok == unique_in_column(grid@, col as int),
{
    if col >= grid.cols {
        return true;
    }
    let mut r1: usize = 0;
    while r1 < grid.rows
        invariant
            grid.wf(),
            col < grid.cols,
            0 <= r1 <= grid.rows,
            forall|a: int, b: int|
                0 <= a < r1 && a < b < grid.rows && filled(#[trigger] grid@.cell(a, col as int).content)
                    ==> grid@.cell(a, col as int).content != #[trigger] grid@.cell(b, col as int).content,
        decreases grid.rows - r1,
    {
        let x = grid.cell_at(r1, col).content;
        if x != CellContent::Empty {
            let mut r2: usize = r1 + 1;
            while r2 < grid.rows
                invariant
                    grid.wf(),
                    col < grid.cols,
                    r1 < r2 <= grid.rows,
                    x == grid@.cell(r1 as int, col as int).content,
                    filled(x),
                    forall|b: int| r1 < b < r2 ==> x != #[trigger] grid@.cell(b, col as int).content,
                decreases grid.rows - r2,
            {
                if grid.cell_at(r2, col).content == x {
                    proof {
                        assert(filled(grid@.cell(r1 as int, col as int).content));
                        assert(grid@.cell(r1 as int, col as int).content == grid@.cell(r2 as int, col as int).content);
                    }
                    return false;
                }
                r2 = r2 + 1;
            }
        }
        r1 = r1 + 1;
    }
    true
}

/// The content at `p`, or `None` outside the grid.
fn content_at_pos(grid: &Grid, p: (usize, usize)) -> (r: Option<CellContent>)
    requires
        grid.wf(),
    ensures
        r == content_of(grid@, p),
{
    if p.0 < grid.rows && p.1 < grid.cols {
        Some(grid.cell_at(p.0, p.1).content)
    } else {
        None
    }
}

fn validate_unique_in_region(cells: &Vec<(usize, usize)>, grid: &Grid) -> (ok: bool)
    requires
        grid.wf(),
    ensures
        ok == unique_among(grid@, cells@),
{
    let mut i: usize = 0;
    while i < cells.len()
        invariant
            grid.wf(),
            0 <= i <= cells@.len(),
            forall|a: int, b: int|
                0 <= a < i && a < b < cells@.len() && #[trigger] content_of(grid@, cells@[a]) is Some
                    && filled(content_of(grid@, cells@[a])->0)
                    ==> content_of(grid@, cells@[a]) != #[trigger] content_of(grid@, cells@[b]),
        decreases cells@.len() - i,
    {
        if let Some(x) = content_at_pos(grid, cells[i]) {
            if x != CellContent::Empty {
                let mut j: usize = i + 1;
                while j < cells.len()
                    invariant
                        grid.wf(),
                        i < j <= cells@.len(),
                        Some(x) == content_of(grid@, cells@[i as int]),
                        filled(x),
                        forall|b: int| i < b < j ==> Some(x) != #[trigger] content_of(grid@, cells@[b]),
                    decreases cells@.len() - j,
                {
                    if content_at_pos(grid, cells[j]) == Some(x) {
                        proof {
                            assert(content_of(grid@, cells@[i as int]) is Some && filled(content_of(grid@, cells@[i as int])->0));
                            assert(content_of(grid@, cells@[i as int]) == content_of(grid@, cells@[j as int]));
                        }
                        return false;
                    }
                    j = j + 1;
                }
            }
        }
        i = i + 1;
    }
    true
}

/// The first region with id `id`, if any.
fn find_region(regions: &Vec<Region>, id: usize) -> (r: Option<usize>)
    ensures
        match r {
            Some(k) => k == region_index(regions@, id, 0) && k < regions@.len(),
            None => region_index(regions@, id, 0) == regions@.len(),
        },
{
    let mut k: usize = 0;
    while k < regions.len()
        invariant
            0 <= k <= regions@.len(),
            region_index(regions@, id, k as int) == region_index(regions@, id, 0),
        decreases regions@.len() - k,
    {
        if regions[k].id == id {
            return Some(k);
        }
        k = k + 1;
    }
    None
}

proof fn lemma_number_sum_grows(g: GridView, cells: Seq<(usize, usize)>, m: int, n: int)
    requires
        0 <= m <= n,
    ensures
        number_sum(g, cells, m) <= number_sum(g, cells, n),
    decreases n - m,
{
    if m < n {
        lemma_number_sum_grows(g, cells, m, n - 1);
    }
}

fn validate_sum_equals(cells: &Vec<(usize, usize)>, target_sum: i32, grid: &Grid) -> (ok: bool)
    requires
        grid.wf(),
    ensures
        ok == (number_sum(grid@, cells@, cells@.len() as int) == target_sum as int),
{
    let mut sum: i64 = 0;
    let mut i: usize = 0;
    while i < cells.len()
        invariant
            grid.wf(),
            0 <= i <= cells@.len(),
            sum == number_sum(grid@, cells@, i as int),
            sum == 0 || sum <= target_sum as int + 255,
        decreases cells@.len() - i,
    {
        if sum > target_sum as i64 {
            proof {
                lemma_number_sum_grows(grid@, cells@, i as int, cells@.len() as int);
            }
            return false;
        }
        let v: i64 = match content_at_pos(grid, cells[i]) {
            Some(CellContent::Number(n)) => n as i64,
            _ => 0,
        };
        sum = sum + v;
        i = i + 1;
    }
    sum == target_sum as i64
}

fn validate_no_adjacent_tents(grid: &Grid) -> (ok: bool)
    requires
        grid.wf(),
    ensures
        ok == forall|r: int, c: int|
            #![trigger grid@.cell(r, c)]
            grid@.inside(r, c) && grid@.cell(r, c).content == CellContent::Tent ==> neighbors_with(grid@, r, c, CellContent::Tent) == 0,
{
    let mut row: usize = 0;
    while row < grid.rows
        invariant
            grid.wf(),
            0 <= row <= grid.rows,
            forall|r: int, c: int|
                #![trigger grid@.cell(r, c)]
                grid@.inside(r, c) && r < row && grid@.cell(r, c).content == CellContent::Tent ==> neighbors_with(grid@, r, c, CellContent::Tent) == 0,
        decreases grid.rows - row,
    {
        let mut col: usize = 0;
        while col < grid.cols
            invariant
                grid.wf(),
                0 <= row < grid.rows,
                0 <= col <= grid.cols,
                forall|r: int, c: int|
                    #![trigger grid@.cell(r, c)]
                    grid@.inside(r, c) && (r < row || (r == row && c < col)) && grid@.cell(r, c).content == CellContent::Tent
                        ==> neighbors_with(grid@, r, c, CellContent::Tent) == 0,
            decreases grid.cols - col,
        {
            if grid.cell_at(row, col).content == CellContent::Tent && grid.count_adjacent(row, col, CellContent::Tent) != 0 {
                return false;
            }
            col = col + 1;
        }
        row = row + 1;
    }
    true
}

fn validate_water_flows_upward(grid: &Grid, regions: &Vec<Region>) -> (ok: bool)
    requires
        grid.wf(),
    ensures
        ok == water_settled(grid@, regions@),
{
    let mut k: usize = 0;
    while k < regions.len()
        invariant
            grid.wf(),
            0 <= k <= regions@.len(),
            forall|k2: int, i: int, j: int| 0 <= k2 < k ==> !#[trigger] water_above_empty(grid@, regions@[k2].cells@, i, j),
        decreases regions@.len() - k,
    {
        let cells = &regions[k].cells;
        let mut i: usize = 0;
        while i < cells.len()
            invariant
                grid.wf(),
                0 <= k < regions@.len(),
                cells@ == regions@[k as int].cells@,
                0 <= i <= cells@.len(),
                forall|k2: int, i2: int, j: int| 0 <= k2 < k ==> !#[trigger] water_above_empty(grid@, regions@[k2].cells@, i2, j),
                forall|i2: int, j: int| i2 < i ==> !#[trigger] water_above_empty(grid@, cells@, i2, j),
            decreases cells@.len() - i,
        {
            if content_at_pos(grid, cells[i]) == Some(CellContent::Water) {
                let mut j: usize = 0;
                while j < cells.len()
                    invariant
                        grid.wf(),
                        0 <= k < regions@.len(),
                        cells@ == regions@[k as int].cells@,
                        0 <= i < cells@.len(),
                        0 <= j <= cells@.len(),
                        content_of(grid@, cells@[i as int]) == Some(CellContent::Water),
                        forall|j2: int| j2 < j ==> !#[trigger] water_above_empty(grid@, cells@, i as int, j2),
                    decreases cells@.len() - j,
                {
                    let below = cells[i].0 < cells[j].0 || (cells[i].0 == cells[j].0 && i < j);
                    if below && content_at_pos(grid, cells[j]) == Some(CellContent::Empty) {
                        proof {
                            assert(water_above_empty(grid@, regions@[k as int].cells@, i as int, j as int));
                        }
                        return false;
                    }
                    j = j + 1;
                }
            }
            i = i + 1;
        }
        k = k + 1;
    }
    true
}

/// The positions that hold `variant`, in row-major order.
fn positions_of(grid: &Grid, variant: CellContent) -> (v: Vec<(usize, usize)>)
    requires
        grid.wf(),
    ensures
        v@ == positions_with(grid@, variant, grid@.cells.len() as int),
{
    let mut v: Vec<(usize, usize)> = Vec::new();
    let mut i: usize = 0;
    while i < grid.cells.len()
        invariant
            grid.wf(),
            0 <= i <= grid.cells@.len(),
            v@ == positions_with(grid@, variant, i as int),
        decreases grid.cells@.len() - i,
    {
        proof {
            crate::search::lemma_pos_of_inside(grid.rows as int, grid.cols as int, i as int);
        }
        if grid.cells[i].content == variant {
            v.push((i / grid.cols, i % grid.cols));
        }
        i = i + 1;
    }
    v
}

fn touching_exec(a: (usize, usize), b: (usize, usize)) -> (r: bool)
    ensures
        r == touching(a, b),
{
    let rows_close = if a.0 >= b.0 { a.0 - b.0 <= 1 } else { b.0 - a.0 <= 1 };
    let cols_close = if a.1 >= b.1 { a.1 - b.1 <= 1 } else { b.1 - a.1 <= 1 };
    rows_close && cols_close
}

fn validate_tent_tree_pairing(grid: &Grid) -> (ok: bool)
    requires
        grid.wf(),
    ensures
        ok == (unpaired(
            positions_with(grid@, CellContent::Tent, grid@.cells.len() as int),
            positions_with(grid@, CellContent::Tree, grid@.cells.len() as int),
            positions_with(grid@, CellContent::Tree, grid@.cells.len() as int).len() as int,
        ).len() == 0),
{
    let mut left = positions_of(grid, CellContent::Tent);
    let trees = positions_of(grid, CellContent::Tree);
    let ghost tents = left@;
    let mut t: usize = 0;
    while t < trees.len()
        invariant
            0 <= t <= trees@.len(),
            left@ == unpaired(tents, trees@, t as int),
        decreases trees@.len() - t,
    {
        let tree = trees[t];
        let mut i: usize = 0;
        while i < left.len() && !touching_exec(left[i], tree)
            invariant
                0 <= i <= left@.len(),
                first_touching(left@, tree, i as int) == first_touching(left@, tree, 0),
            decreases left@.len() - i,
        {
            i = i + 1;
        }
        if i < left.len() {
            left.swap_remove(i);
        }
        t = t + 1;
    }
    left.len() == 0
}

/// Whether `grid` meets `rule`, given the puzzle's regions.
pub fn validate_rule(rule: &Rule, grid: &Grid, regions: &Vec<Region>) -> (ok: bool)
    requires
        grid.wf(),
    ensures
        ok == rule_holds(*rule, grid@, regions@),
{
    match rule {
        Rule::UniqueInRow(row) => validate_unique_in_row(*row, grid),
        Rule::UniqueInColumn(col) => validate_unique_in_column(*col, grid),
        Rule::UniqueInRegion(id) => match find_region(regions, *id) {
            Some(k) => validate_unique_in_region(&regions[k].cells, grid),
            None => true,
        },
        Rule::SumEquals(cells, target) => validate_sum_equals(cells, *target, grid),
        Rule::AdjacentMines(row, col, count) => grid.count_adjacent(*row, *col, CellContent::Mine) == *count,
        Rule::TotalMines(count) => count_in_grid(grid, CellContent::Mine) as u64 == *count as u64,
        Rule::TentsInRow(row, count) => count_in_row(grid, *row, CellContent::Tent) == *count as usize,
        Rule::TentsInColumn(col, count) => count_in_column(grid, *col, CellContent::Tent) == *count as usize,
        Rule::TentTreePairing => validate_tent_tree_pairing(grid),
        Rule::NoAdjacentTents => validate_no_adjacent_tents(grid),
        Rule::WaterInRow(row, count) => count_in_row(grid, *row, CellContent::Water) == *count as usize,
        Rule::WaterInColumn(col, count) => count_in_column(grid, *col, CellContent::Water) == *count as usize,
        Rule::WaterFlowsUpward => validate_water_flows_upward(grid, regions),
    }
}

} // verus!
