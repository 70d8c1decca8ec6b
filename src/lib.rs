pub mod board;
pub mod grid;
pub mod laws;
pub mod render;
pub mod util;
