//! A verified engine for a grid-based mine-detection puzzle.
//!
//! The engine owns a rectangular grid of cells, places mines lazily on the
//! first reveal (keeping the cursor and its neighbours mine-free), expands
//! zero-adjacency reveals by flood fill, and drives the
//! Playing -> GameOver | Won state machine. Rendering and input live outside.
use vstd::prelude::*;

pub mod counting;
pub mod engine;

pub use engine::AppState;
pub use engine::Command;
pub use engine::GameState;
pub use engine::Row;
pub use engine::Termsweeper;

verus! {

/// One grid position: visibility, user mark, mine flag, and the number of
/// mines among its valid neighbours (filled in at initialization).
#[derive(Clone, Copy, PartialEq, Eq, Structural)]
pub struct Field {
    pub revealed: bool,
    pub marked: bool,
    pub is_mine: bool,
    pub adjacent_mines: u8,
}

impl Field {
    pub fn new() -> (f: Field)
        ensures
            f == (Field { revealed: false, marked: false, is_mine: false, adjacent_mines: 0u8 }),
    {
        Field { revealed: false, marked: false, is_mine: false, adjacent_mines: 0 }
    }
}

} // verus!
