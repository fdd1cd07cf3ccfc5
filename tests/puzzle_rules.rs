use grid_puzzle::{validate_rule, Cell, CellContent, Grid, PuzzleDefinition, PuzzleRule, Region, Rule};
use rand::rngs::StdRng;
use rand::SeedableRng;

fn shown(content: CellContent) -> Cell {
    Cell { content, revealed: true }
}

fn grid_of(rows: Vec<Vec<CellContent>>) -> Grid {
    let r = rows.len();
    let c = rows[0].len();
    let cells = rows.into_iter().map(|row| row.into_iter().map(shown).collect()).collect();
    Grid::new(r, c, cells).unwrap()
}

fn definition(rows: usize, cols: usize, rules: Vec<Rule>, regions: Vec<Region>, states: Vec<CellContent>) -> PuzzleDefinition {
    PuzzleDefinition {
        rows,
        cols,
        rules: rules
            .into_iter()
            .map(|condition| PuzzleRule { description: String::from("rule"), condition })
            .collect(),
        regions,
        states,
    }
}

use CellContent::{Empty, Mine, Number, Tent, Tree, Water};

#[test]
fn uniqueness_in_rows_columns_and_regions() {
    let g = grid_of(vec![vec![Number(1), Number(2), Empty], vec![Number(1), Empty, Empty]]);
    let regions = vec![Region { id: 7, cells: vec![(0, 0), (0, 1)] }, Region { id: 8, cells: vec![(0, 0), (1, 0), (5, 5)] }];
    let ok = |rule: Rule| definition(2, 3, vec![rule], regions.clone(), vec![]).validate(&g);
    assert!(ok(Rule::UniqueInRow(0)));
    assert!(ok(Rule::UniqueInRow(1)));
    assert!(ok(Rule::UniqueInRow(9)));
    assert!(!ok(Rule::UniqueInColumn(0)));
    assert!(ok(Rule::UniqueInColumn(2)));
    assert!(ok(Rule::UniqueInRegion(7)));
    assert!(!ok(Rule::UniqueInRegion(8)));
    assert!(ok(Rule::UniqueInRegion(3)));
}

#[test]
fn sums_counts_and_mines() {
    let g = grid_of(vec![vec![Number(4), Mine, Number(3)], vec![Tent, Water, Mine]]);
    let ok = |rule: Rule| definition(2, 3, vec![rule], vec![], vec![]).validate(&g);
    assert!(ok(Rule::SumEquals(vec![(0, 0), (0, 2), (0, 1), (9, 9)], 7)));
    assert!(!ok(Rule::SumEquals(vec![(0, 0)], 5)));
    assert!(!ok(Rule::SumEquals(vec![(0, 0), (0, 2)], -1)));
    assert!(ok(Rule::AdjacentMines(1, 1, 2)));
    assert!(ok(Rule::AdjacentMines(0, 0, 1)));
    assert!(ok(Rule::AdjacentMines(2, 3, 1)));
    assert!(ok(Rule::TotalMines(2)));
    assert!(!ok(Rule::TotalMines(3)));
    assert!(ok(Rule::TentsInRow(1, 1)));
    assert!(ok(Rule::TentsInColumn(0, 1)));
    assert!(ok(Rule::TentsInColumn(1, 0)));
    assert!(ok(Rule::WaterInRow(1, 1)));
    assert!(ok(Rule::WaterInColumn(1, 1)));
    assert!(!ok(Rule::WaterInColumn(2, 1)));
}

#[test]
fn tents_pair_with_trees() {
    let paired = grid_of(vec![vec![Tree, Tent, Empty], vec![Empty, Empty, Tree], vec![Empty, Tent, Empty]]);
    let rules = |rule: Rule| definition(3, 3, vec![rule], vec![], vec![]);
    assert!(rules(Rule::TentTreePairing).validate(&paired));
    assert!(rules(Rule::NoAdjacentTents).validate(&paired));
    let lonely = grid_of(vec![vec![Tree, Empty, Empty], vec![Empty, Empty, Empty], vec![Empty, Empty, Tent]]);
    assert!(!rules(Rule::TentTreePairing).validate(&lonely));
    let crowded = grid_of(vec![vec![Tree, Tent, Tent]]);
    assert!(!definition(1, 3, vec![Rule::NoAdjacentTents], vec![], vec![]).validate(&crowded));
    assert!(!definition(1, 3, vec![Rule::TentTreePairing], vec![], vec![]).validate(&crowded));
}

#[test]
fn water_settles_at_the_bottom() {
    let g = grid_of(vec![vec![Empty, Water], vec![Water, Water]]);
    let left = Region { id: 0, cells: vec![(0, 0), (1, 0)] };
    let right = Region { id: 1, cells: vec![(1, 1), (0, 1)] };
    assert!(definition(2, 2, vec![Rule::WaterFlowsUpward], vec![left.clone(), right], vec![]).validate(&g));
    let floating = grid_of(vec![vec![Water, Water], vec![Empty, Water]]);
    assert!(!definition(2, 2, vec![Rule::WaterFlowsUpward], vec![left], vec![]).validate(&floating));
}

#[test]
fn one_hidden_hazard_is_unique() {
    let def = definition(1, 3, vec![Rule::TotalMines(1)], vec![], vec![Empty, Mine]);
    let cells = vec![vec![shown(Empty), Cell::blank(), shown(Empty)]];
    let g = Grid::new(1, 3, cells).unwrap();
    assert!(def.has_unique_solution(&g));
    let two_places = Grid::new(1, 3, vec![vec![shown(Empty), Cell::blank(), Cell::blank()]]).unwrap();
    assert!(!def.has_unique_solution(&two_places));
    let none = Grid::new(1, 3, vec![vec![shown(Empty), shown(Empty), shown(Empty)]]).unwrap();
    assert!(!def.has_unique_solution(&none));
}

#[test]
fn full_solution_meets_the_rules() {
    let rules = vec![Rule::NoAdjacentTents, Rule::UniqueInRow(0), Rule::UniqueInRow(1)];
    let def = definition(2, 3, rules, vec![], vec![Tent, Tree, Water]);
    let mut rng = StdRng::seed_from_u64(3);
    let g = def.generate_full_solution(&mut rng).unwrap();
    assert!(def.validate(&g));
    for cell in &g.cells {
        assert!(cell.revealed);
    }
    let impossible = definition(1, 3, vec![Rule::UniqueInRow(0)], vec![], vec![Tent, Tree]);
    assert!(impossible.generate_full_solution(&mut rng).is_none());
    // A count that no partial grid meets stops the search at the first cell.
    let counted = definition(2, 2, vec![Rule::TotalMines(2)], vec![], vec![Empty, Mine]);
    assert!(counted.generate_full_solution(&mut rng).is_none());
}

#[test]
fn generated_puzzle_has_one_solution() {
    let def = definition(2, 2, vec![Rule::TotalMines(1)], vec![], vec![Empty, Mine]);
    let g = def.generate_puzzle(11).unwrap();
    assert!(def.has_unique_solution(&g));
    assert_eq!(g.cells.len(), 4);
}

#[test]
fn reduction_keeps_uniqueness() {
    let def = definition(1, 3, vec![Rule::TotalMines(1)], vec![], vec![Empty, Mine]);
    let mut g = grid_of(vec![vec![Empty, Mine, Empty]]);
    let before = g.cells.clone();
    let mut rng = StdRng::seed_from_u64(5);
    def.reduce_revealed_cells(&mut g, &mut rng);
    assert!(def.has_unique_solution(&g));
    for (after, was) in g.cells.iter().zip(before.iter()) {
        assert!(after == was || *after == Cell::blank());
    }
    assert!(g.cells.iter().any(|c| !c.revealed));
}

#[test]
fn reduction_order_is_random() {
    let def = definition(1, 3, vec![Rule::TotalMines(1)], vec![], vec![Empty, Mine]);
    let mut outcomes = Vec::new();
    for seed in 0..20 {
        let mut g = grid_of(vec![vec![Empty, Mine, Empty]]);
        let mut rng = StdRng::seed_from_u64(seed);
        def.reduce_revealed_cells(&mut g, &mut rng);
        assert!(def.has_unique_solution(&g));
        let hidden: Vec<bool> = g.cells.iter().map(|c| !c.revealed).collect();
        if !outcomes.contains(&hidden) {
            outcomes.push(hidden);
        }
    }
    // Visiting the mine first hides it alone; visiting an empty cell first
    // hides both empty cells.
    assert!(outcomes.contains(&vec![false, true, false]));
    assert!(outcomes.contains(&vec![true, false, true]));
}

#[test]
fn repeated_states_count_once() {
    let def = definition(1, 3, vec![Rule::TotalMines(1)], vec![], vec![Empty, Mine, Mine, Empty]);
    let g = Grid::new(1, 3, vec![vec![shown(Empty), Cell::blank(), shown(Empty)]]).unwrap();
    assert!(def.has_unique_solution(&g));
    let two_places = Grid::new(1, 3, vec![vec![shown(Empty), Cell::blank(), Cell::blank()]]).unwrap();
    assert!(!def.has_unique_solution(&two_places));
}

#[test]
fn every_remaining_given_is_needed() {
    let def = definition(2, 3, vec![Rule::TotalMines(1), Rule::UniqueInRow(0)], vec![], vec![Empty, Mine]);
    for seed in 0..5 {
        let g = def.generate_puzzle(seed).unwrap();
        assert!(def.has_unique_solution(&g));
        for i in 0..g.cells.len() {
            if g.cells[i] != Cell::blank() {
                let mut hidden = Grid::new(2, 3, vec![g.cells[0..3].to_vec(), g.cells[3..6].to_vec()]).unwrap();
                hidden.set_cell(i / 3, i % 3, Cell::blank());
                assert!(!def.has_unique_solution(&hidden));
            }
        }
    }
}

#[test]
fn rule_interpreter_is_public() {
    let g = grid_of(vec![vec![Mine, Empty]]);
    assert!(validate_rule(&Rule::TotalMines(1), &g, &vec![]));
    assert!(!validate_rule(&Rule::TotalMines(2), &g, &vec![]));
}
