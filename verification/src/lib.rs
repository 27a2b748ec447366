pub mod text;
pub mod backend;
pub mod ai;
pub mod piece;
pub mod movement;
pub mod board;
