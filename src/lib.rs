pub mod board;
pub mod laws;
pub mod rules;
pub mod solver;
pub mod text;
