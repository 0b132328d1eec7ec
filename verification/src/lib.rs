//! A two-player naval combat game on a 10x10 board: the board and fleet
//! model, ship placement, shot resolution and the hunt-then-target engine
//! that picks the automated player's shots.

pub mod coord;
pub mod fleet;
pub mod grid;
pub mod input;
pub mod placement;
pub mod possible_guess;
pub mod quadrant;
pub mod random;
pub mod shot;
pub mod turn;
