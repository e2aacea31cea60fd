//! Wave-function-collapse tile solver.
//!
//! A grid of cells is driven to a fully collapsed state: every cell ends up
//! holding exactly one tile index, chosen so that the connection signatures of
//! adjacent tiles match along their shared edge.  The catalog of tiles, the
//! per-tile adjacency tables, the grid and the entropy-driven solver live
//! here; loading tile bitmaps and stitching the output image are a caller's
//! concern.

use vstd::prelude::*;

pub mod grid;
pub mod rng;
pub mod solver;
pub mod tile;

verus! {

/// The ways a solve attempt can fail.  Every failure aborts the attempt; no
/// partial grid is handed out.
#[derive(Debug, Clone, Copy, PartialEq, Eq, Structural)]
pub enum WfcError {
    /// A zero-area grid was requested.
    EmptyGrid,
    /// A collapse step was asked for when every cell was already collapsed.
    NoUncollapsedCells,
    /// Propagation drove some cell's candidate set to empty; the payload is
    /// the row-major index of the offending cell.
    Contradiction(usize),
    /// A connection signature held a value outside the edge alphabet.
    InvalidConnectionValue,
}

} // verus!
