//! Rules engine for a two-player placement game on a rectangular grid.
//!
//! Pieces are placed (never moved) at integer coordinates. A placement is
//! legal only at a cell in the mover's legal-placement set, which is kept
//! incrementally: a newly placed piece opens the empty cells it can leap to,
//! closes cells whose every leap it blocks, and may capture an enemy group
//! that it disconnects from the board edge.

use vstd::prelude::*;

pub mod board;
pub mod location;
pub mod position;

verus! {

/// The two ways a request to the engine can fail. An out-of-bounds grid
/// access is an `InvalidCoordinate`; a placement at a cell outside the
/// mover's legal-placement set is an `IllegalMove`. Both are returned,
/// never panics.
#[derive(Clone, Copy, PartialEq, Eq, Structural, Debug)]
pub enum RulesError {
    InvalidCoordinate,
    IllegalMove,
}

} // verus!
