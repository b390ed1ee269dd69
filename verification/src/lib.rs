pub mod direction;
pub mod grid;
pub mod moves;
pub mod search;

pub use direction::Dir;
pub use grid::Grid;
pub use moves::Op;
