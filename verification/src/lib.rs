pub mod food;
pub mod game;
pub mod num;
pub mod segment;
pub mod vector;

pub use num::{SCALE, HALF_SCALE, MAX_COORD, VEC_LIMIT};
pub use vector::Vector;
pub use segment::Segment;
pub use game::{Game, Movement, GameError};
pub use food::get_food;
