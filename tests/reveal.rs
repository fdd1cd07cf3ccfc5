use grid_puzzle::{spawn_mines, Cell, CellContent, Grid, GridError, MSGameBoard, MSGameState};
use rand::rngs::StdRng;
use rand::SeedableRng;

fn board(grid: Grid) -> MSGameBoard {
    MSGameBoard { grid, state: MSGameState::Progressing }
}

fn revealed(g: &Grid, r: usize, c: usize) -> bool {
    g.query_cell_state(r, c).unwrap().1
}

#[test]
fn minefield_counts_adjacent_mines() {
    let g = Grid::minefield(3, 3, &vec![(1, 1)]);
    for r in 0..3 {
        for c in 0..3 {
            let (content, shown) = g.query_cell_state(r, c).unwrap();
            assert!(!shown);
            if (r, c) == (1, 1) {
                assert_eq!(content, CellContent::Mine);
            } else {
                assert_eq!(content, CellContent::Number(1));
            }
        }
    }
    assert_eq!(g.count_adjacent(0, 0, CellContent::Mine), 1);
    assert_eq!(g.count_adjacent(3, 3, CellContent::Mine), 0);
    assert_eq!(g.count_adjacent(2, 2, CellContent::Mine), 1);
}

#[test]
fn single_mine_three_by_three() {
    let mut b = board(Grid::minefield(3, 3, &vec![(1, 1)]));
    b.reveal_cell(0, 0);
    // (0, 0) shows a count of one, so the reveal does not spread.
    assert!(revealed(&b.grid, 0, 0));
    for (r, c) in [(0, 1), (0, 2), (1, 0), (1, 1), (1, 2), (2, 0), (2, 1), (2, 2)] {
        assert!(!revealed(&b.grid, r, c));
    }
    assert_eq!(b.state, MSGameState::Progressing);
    for (r, c) in [(0, 1), (0, 2), (1, 0), (1, 2), (2, 0), (2, 1), (2, 2)] {
        b.reveal_cell(r, c);
    }
    assert_eq!(b.state, MSGameState::GameWin);
    assert!(!revealed(&b.grid, 1, 1));
}

#[test]
fn revealing_a_mine_ends_the_game() {
    let mut b = board(Grid::minefield(3, 3, &vec![(1, 1)]));
    b.reveal_cell(1, 1);
    assert_eq!(b.state, MSGameState::GameOver);
    assert!(b.state.is_game_over());
    b.reveal_cell(0, 0);
    assert_eq!(b.state, MSGameState::GameOver);
}

#[test]
fn cascade_stops_at_counts() {
    let mut b = board(Grid::minefield(1, 5, &vec![(0, 4)]));
    b.reveal_cell(0, 0);
    for c in 0..4 {
        assert!(revealed(&b.grid, 0, c));
    }
    assert!(!revealed(&b.grid, 0, 4));
    assert_eq!(b.state, MSGameState::GameWin);
}

#[test]
fn cascade_around_a_corner_mine() {
    let mut b = board(Grid::minefield(4, 4, &vec![(0, 0)]));
    b.reveal_cell(3, 3);
    for r in 0..4 {
        for c in 0..4 {
            assert_eq!(revealed(&b.grid, r, c), (r, c) != (0, 0));
        }
    }
    assert_eq!(b.state, MSGameState::GameWin);
}

#[test]
fn no_mines_reveals_everything() {
    for (pr, pc) in [(0, 0), (2, 3), (3, 4), (1, 2)] {
        let mut b = board(Grid::minefield(4, 5, &vec![]));
        b.reveal_cell(pr, pc);
        for r in 0..4 {
            for c in 0..5 {
                assert!(revealed(&b.grid, r, c));
            }
        }
        assert!(b.grid.all_safe_revealed());
        assert_eq!(b.state, MSGameState::GameWin);
    }
}

#[test]
fn revealing_twice_changes_nothing() {
    let mut once = board(Grid::minefield(5, 5, &vec![(0, 4), (3, 1)]));
    once.reveal_cell(0, 0);
    let mut twice = board(Grid::minefield(5, 5, &vec![(0, 4), (3, 1)]));
    twice.reveal_cell(0, 0);
    twice.reveal_cell(0, 0);
    assert_eq!(once.state, twice.state);
    assert_eq!(once.grid.cells, twice.grid.cells);
}

#[test]
fn check_win_keeps_a_lost_game() {
    let mut g = Grid::minefield(1, 2, &vec![(0, 0)]);
    g.uncover_cell(0, 1);
    let mut lost = MSGameBoard { grid: g, state: MSGameState::GameOver };
    lost.check_win_condition();
    assert_eq!(lost.state, MSGameState::GameOver);
    let mut g2 = Grid::minefield(1, 2, &vec![(0, 0)]);
    g2.uncover_cell(0, 1);
    let mut going = board(g2);
    going.check_win_condition();
    assert_eq!(going.state, MSGameState::GameWin);
}

#[test]
fn spawned_minefield_spares_the_first_cell() {
    let mut rng = StdRng::seed_from_u64(42);
    let g = spawn_mines(4, 4, (2, 1), 15, &mut rng);
    let mut mines = 0;
    for r in 0..4 {
        for c in 0..4 {
            let (content, shown) = g.query_cell_state(r, c).unwrap();
            assert!(!shown);
            if content == CellContent::Mine {
                mines += 1;
            } else {
                assert_eq!(content, CellContent::Number(g.count_adjacent(r, c, CellContent::Mine)));
            }
        }
    }
    assert_eq!(mines, 15);
    assert_eq!(g.query_cell_state(2, 1).unwrap().0, CellContent::Number(8));
    let none = spawn_mines(3, 3, (0, 0), 0, &mut rng);
    assert!(none.cells.iter().all(|c| c.content == CellContent::Number(0)));
}

#[test]
fn grid_shape_is_checked() {
    let row = vec![Cell::blank(), Cell::blank()];
    assert!(matches!(Grid::new(2, 2, vec![row.clone()]), Err(GridError::RowCount)));
    assert!(matches!(Grid::new(2, 2, vec![row.clone(), vec![Cell::blank()]]), Err(GridError::ColumnCount)));
    let g = Grid::new(2, 2, vec![row.clone(), vec![Cell::blank(), Cell::new(CellContent::Tree)]]).unwrap();
    assert_eq!(g.rows, 2);
    assert_eq!(g.cols, 2);
    assert_eq!(g.get_cell(1, 1).unwrap().get_variant(), CellContent::Tree);
    assert!(g.get_cell(2, 0).is_none());
    assert!(g.query_cell_state(0, 2).is_none());
}

#[test]
fn cell_capabilities() {
    let mut c = Cell::new(CellContent::Number(3));
    assert!(!c.is_revealed());
    c.uncover();
    assert!(c.is_revealed());
    assert_eq!(c.adjacency(), 3);
    assert!(!c.is_mine());
    c.conceal();
    assert!(!c.is_revealed());
    assert!(Cell::new(CellContent::Mine).is_mine());
}

#[test]
fn cells_change_in_place() {
    let mut g = Grid::filled(2, 3, Cell::blank());
    if let Some(c) = g.get_cell_mut(1, 2) {
        c.content = CellContent::Water;
        c.uncover();
    }
    assert!(g.get_cell_mut(2, 0).is_none());
    assert_eq!(g.query_cell_state(1, 2), Some((CellContent::Water, true)));
    assert_eq!(g.query_cell_state(0, 2), Some((CellContent::Empty, false)));
    g.set_cell(0, 0, Cell::new(CellContent::Tent));
    assert_eq!(g.get_cell(0, 0).unwrap().content, CellContent::Tent);
}
