//! A verified engine for a sliding-tile merge puzzle on a square grid.
//!
//! The engine owns the board geometry, the set of live tiles, the
//! directional shift-and-merge algorithm, random tile spawning, detection
//! of the terminal (no-legal-move) state, and score tracking.  Rendering,
//! input devices and animation are left to the host program.

pub mod board;
pub mod game;
pub mod shift;
pub mod spawn;
pub mod terminal;
pub mod tiles;

use vstd::prelude::*;

verus! {

} // verus!
