//! A declarative engine for grid-based logic puzzles: directional neighbour
//! search, weighted random content, cascading reveal, and rule-based
//! validation with backtracking generation.

mod cell;
mod direction;
mod grid;
mod minefield;
mod minesweeper;
mod position_rule;
mod puzzle;
mod random;
mod rules;
mod search;
mod weighted;

pub use cell::{Cell, CellContent};
pub use direction::{Direction, DirectionSet};
pub use grid::{Grid, GridError};
pub use position_rule::{Distance, EdgeBehavior, PositionRule};
pub use weighted::{GenConfig, GenMethod, PROB_SCALE};
pub use minefield::spawn_mines;
pub use minesweeper::{MSGameBoard, MSGameState};
pub use rules::{validate_rule, PuzzleRule, Region, Rule};
pub use puzzle::PuzzleDefinition;
