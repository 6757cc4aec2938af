//! Rule engine for a grid placement puzzle: an n-by-n board is partitioned
//! into n colored areas, and a solution marks exactly one cell per row, per
//! column and per area, with no two marked cells touching diagonally.
pub mod errors;
pub mod model;
