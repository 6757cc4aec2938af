pub mod coordinate;
pub mod layout;
pub mod generator;
pub mod state;
pub mod laws;
pub mod navigation;
pub mod game_error;
pub mod game_rule_broken;
pub mod grid;
pub mod tile;
