use grid_puzzle::{Cell, CellContent, Direction, DirectionSet, Distance, EdgeBehavior, Grid, PositionRule};

fn grid(rows: usize, cols: usize) -> Grid {
    Grid::filled(rows, cols, Cell::blank())
}

fn eight() -> DirectionSet {
    DirectionSet::from_directions(&[
        Direction::Left,
        Direction::Right,
        Direction::Up,
        Direction::Down,
        Direction::LeftUp,
        Direction::LeftDown,
        Direction::RightUp,
        Direction::RightDown,
    ])
}

#[test]
fn wrap_or_stop_values() {
    let g = grid(3, 3);
    assert_eq!(g.wrap_or_stop(0, 3, -1, EdgeBehavior::Stop), None);
    assert_eq!(g.wrap_or_stop(2, 3, 1, EdgeBehavior::Stop), None);
    assert_eq!(g.wrap_or_stop(1, 3, 1, EdgeBehavior::Stop), Some(2));
    assert_eq!(g.wrap_or_stop(0, 3, -1, EdgeBehavior::Wrap), Some(2));
    assert_eq!(g.wrap_or_stop(2, 3, 1, EdgeBehavior::Wrap), Some(0));
    assert_eq!(g.wrap_or_stop(1, 3, -1, EdgeBehavior::Wrap), Some(0));
}

#[test]
fn search_cell_stops_at_the_edge() {
    let g = grid(3, 3);
    assert_eq!(g.search_cell((0, 0), Direction::Left, 1, EdgeBehavior::Stop), None);
    assert_eq!(g.search_cell((0, 0), Direction::Right, 2, EdgeBehavior::Stop), Some((0, 2)));
    assert_eq!(g.search_cell((0, 0), Direction::Right, 3, EdgeBehavior::Stop), None);
    assert_eq!(g.search_cell((0, 0), Direction::RightDown, 2, EdgeBehavior::Stop), Some((2, 2)));
    assert_eq!(g.search_cell((1, 1), Direction::Up, 0, EdgeBehavior::Stop), Some((1, 1)));
}

#[test]
fn search_cell_wraps() {
    let g = grid(3, 4);
    assert_eq!(g.search_cell((0, 0), Direction::Left, 1, EdgeBehavior::Wrap), Some((0, 3)));
    assert_eq!(g.search_cell((0, 0), Direction::Up, 1, EdgeBehavior::Wrap), Some((2, 0)));
    assert_eq!(g.search_cell((0, 0), Direction::LeftUp, 1, EdgeBehavior::Wrap), Some((2, 3)));
    assert_eq!(g.search_cell((2, 3), Direction::RightDown, 5, EdgeBehavior::Wrap), Some((1, 0)));
}

#[test]
fn search_cell_under_stop_stays_inside() {
    let g = grid(3, 4);
    let all = [
        Direction::Left,
        Direction::Right,
        Direction::Up,
        Direction::Down,
        Direction::LeftUp,
        Direction::LeftDown,
        Direction::RightUp,
        Direction::RightDown,
    ];
    for r in 0..3 {
        for c in 0..4 {
            for d in all {
                for n in 0..6 {
                    if let Some((qr, qc)) = g.search_cell((r, c), d, n, EdgeBehavior::Stop) {
                        assert!(qr < 3 && qc < 4);
                    }
                }
            }
        }
    }
}

#[test]
fn search_cells_follows_direction_order() {
    let g = grid(3, 3);
    let rule = PositionRule::new(eight(), Distance::Finite(1), EdgeBehavior::Stop);
    let hits = g.search_cells((1, 1), &rule);
    assert_eq!(hits, vec![(1, 0), (1, 2), (0, 1), (2, 1), (0, 0), (2, 0), (0, 2), (2, 2)]);
    let corner = g.search_cells((0, 0), &rule);
    assert_eq!(corner, vec![(0, 1), (1, 0), (1, 1)]);
}

#[test]
fn search_cells_unbounded_walks() {
    let g = grid(1, 4);
    let row_rule = PositionRule::new(
        DirectionSet::from_directions(&[Direction::Left, Direction::Right]),
        Distance::Infinite,
        EdgeBehavior::Stop,
    );
    assert_eq!(g.search_cells((0, 1), &row_rule), vec![(0, 0), (0, 2), (0, 3)]);
    let wrap_rule = PositionRule::new(
        DirectionSet::from_directions(&[Direction::Right]),
        Distance::Infinite,
        EdgeBehavior::Wrap,
    );
    let small = grid(1, 3);
    assert_eq!(small.search_cells((0, 0), &wrap_rule), vec![(0, 1), (0, 2), (0, 0)]);
}

#[test]
fn is_neighbor_under_rules() {
    let g = grid(4, 4);
    let orth = PositionRule::new(
        DirectionSet::from_directions(&[Direction::Left, Direction::Right, Direction::Up, Direction::Down]),
        Distance::Finite(1),
        EdgeBehavior::Stop,
    );
    assert!(g.is_neighbor(&orth, (1, 1), (1, 2)));
    assert!(!g.is_neighbor(&orth, (1, 1), (2, 2)));
    let column = PositionRule::new(
        DirectionSet::from_directions(&[Direction::Up, Direction::Down]),
        Distance::Infinite,
        EdgeBehavior::Stop,
    );
    assert!(g.is_neighbor(&column, (0, 2), (3, 2)));
    assert!(!g.is_neighbor(&column, (0, 2), (3, 1)));
}

#[test]
fn count_occurrences_counts_adjacent_mines() {
    let mut g = grid(3, 3);
    g.set_cell(0, 0, Cell::new(CellContent::Mine));
    g.set_cell(2, 1, Cell::new(CellContent::Mine));
    let rule = PositionRule::new(eight(), Distance::Finite(1), EdgeBehavior::Stop);
    let mine = |c: &Cell| c.content == CellContent::Mine;
    assert_eq!(g.count_occurrences((1, 1), &rule, mine), 2);
    assert_eq!(g.count_occurrences((0, 2), &rule, mine), 0);
    assert_eq!(g.count_occurrences((1, 0), &rule, mine), 2);
    assert_eq!(g.count_occurrences((1, 0), &rule, |c: &Cell| c.content == CellContent::Empty), 3);
}

#[test]
fn count_occurrences_is_monotone_in_the_predicate() {
    let mut g = grid(3, 3);
    g.set_cell(0, 0, Cell::new(CellContent::Mine));
    g.set_cell(0, 1, Cell { content: CellContent::Mine, revealed: true });
    let rule = PositionRule::new(eight(), Distance::Finite(1), EdgeBehavior::Stop);
    let hits = g.search_cells((1, 1), &rule).len();
    let shown_mine = g.count_occurrences((1, 1), &rule, |c: &Cell| c.content == CellContent::Mine && c.revealed);
    let mine = g.count_occurrences((1, 1), &rule, |c: &Cell| c.content == CellContent::Mine);
    let all = g.count_occurrences((1, 1), &rule, |_: &Cell| true);
    let none = g.count_occurrences((1, 1), &rule, |_: &Cell| false);
    assert_eq!(shown_mine, 1);
    assert_eq!(mine, 2);
    assert_eq!(all, hits);
    assert_eq!(all, 8);
    assert_eq!(none, 0);
    let mut calls = Vec::new();
    let seen = std::cell::RefCell::new(&mut calls);
    g.count_occurrences((0, 0), &rule, |c: &Cell| {
        seen.borrow_mut().push(c.content);
        false
    });
    assert_eq!(calls, vec![CellContent::Mine, CellContent::Empty, CellContent::Empty]);
}

#[test]
fn occur_and_pair_exist() {
    let mut g = grid(2, 2);
    g.set_cell(0, 0, Cell::new(CellContent::Tree));
    g.set_cell(0, 1, Cell::new(CellContent::Tent));
    let orth = PositionRule::new(
        DirectionSet::from_directions(&[Direction::Left, Direction::Right, Direction::Up, Direction::Down]),
        Distance::Finite(1),
        EdgeBehavior::Stop,
    );
    // The tent is found from the tree and from the cell below it.
    assert!(g.occur(CellContent::Tent, 2, &orth));
    assert!(!g.occur(CellContent::Tent, 1, &orth));
    assert!(g.is_pair_exist(CellContent::Tent, 1, CellContent::Tree, 0, &orth));
    assert!(g.is_pair_exist(CellContent::Tent, 1, CellContent::Empty, 1, &orth));
    assert!(!g.is_pair_exist(CellContent::Tent, 2, CellContent::Tree, 0, &orth));
}
