pub mod board;
pub mod codec;
pub mod moves;
pub mod game;
pub mod solver;
pub mod laws;
pub mod authorship;
