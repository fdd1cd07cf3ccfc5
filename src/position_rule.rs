use vstd::prelude::*;
use crate::direction::DirectionSet;

verus! {

/// How far a search goes in one direction.
#[derive(Clone, Copy, PartialEq, Eq, Structural, Debug)]
pub enum Distance {
    /// Exactly this many steps.
    Finite(usize),
    /// Every step until the edge stops the walk, or one lap of a wrapped board.
    Infinite,
}

/// What a search does at the boundary of the grid.
#[derive(Clone, Copy, PartialEq, Eq, Structural, Debug)]
pub enum EdgeBehavior {
    /// Stepping off the grid ends the search with no result.
    Stop,
    /// Coordinates wrap around modulo the grid's extent.
    Wrap,
}

/// A reusable neighbour-search specification.
#[derive(Clone, Copy, PartialEq, Eq, Structural, Debug)]
pub struct PositionRule {
    pub directions: DirectionSet,
    pub distance: Distance,
    pub edge_behavior: EdgeBehavior,
}

impl PositionRule {
    /// A rule; a finite distance of zero is a defect and is not accepted.
    pub fn new(directions: DirectionSet, distance: Distance, edge_behavior: EdgeBehavior) -> (r: Self)
        requires
            distance != Distance::Finite(0),
        ensures
            r.directions == directions,
            r.distance == distance,
            r.edge_behavior == edge_behavior,
    {
        PositionRule { directions, distance, edge_behavior }
    }
}

} // verus!
