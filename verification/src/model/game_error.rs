use vstd::prelude::*;

use crate::model::coordinate::Coordinate;
use crate::model::layout::Area;

verus! {

/// A broken constraint reported with full coordinates.
#[derive(Clone, Debug)]
pub enum GameError {
    Row { row: usize },
    Column { col: usize },
    Area { area: Area },
    Diagonal { c1: Coordinate, c2: Coordinate },
}

} // verus!
