pub mod board;
pub mod pool;
pub mod score;
pub mod valid;
pub mod write;

pub use board::Board;
pub use pool::Bag;
pub use pool::Rack;
pub use board::PlayError;
pub use board::Space;
pub use crate::score_letter;
