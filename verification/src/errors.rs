use vstd::prelude::*;

verus! {

/// Error that cannot be resolved by game logic, and is thus handled by
/// restarting the game.
#[derive(Debug, Copy, Clone, PartialEq, Eq, Structural)]
pub enum QueensError {
    AreaNotFound { c: usize },
    OutOfBounds { c: usize },
    Invalid2DCoordinate { column: usize, row: usize, n: usize },
    RefreshRequested,
}

pub type QueensResult<T> = Result<T, QueensError>;

} // verus!
