//! The ways in which tables and grids are refused.

use crate::tile::{Content, TileType};
use vstd::prelude::*;

verus! {

#[derive(Debug, Clone, Copy, PartialEq, Eq, Structural)]
/// Why a table, a grid or a search is refused.
pub enum GeneratorError {
    /// The grid has no cell, is ragged, or has more cells than a search can account for.
    InvalidWorldSize,
    /// A table offers a content that its terrain cannot hold.
    InvalidContent(TileType, Content),
    /// A terrain is missing from a table, or its ranges do not run from 0 to 100.
    NonExhaustiveContentDistribution,
    /// The ranges of a table are empty, out of order, overlapping or leave a gap.
    OverlappingDistribution,
    /// A table has an entry for the active teleport.
    ActiveTeleport,
    /// An end of a path lies outside the grid.
    OutOfBounds,
    /// The search ran out of cells before it reached the goal.
    NoPathFound,
}

} // verus!
