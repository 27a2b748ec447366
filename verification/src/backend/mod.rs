pub mod piece;
pub mod board_representation;
pub mod zobrist;
pub mod board;
pub mod rules;
pub mod move_values;
pub mod keycount;
pub mod ai;
pub mod movement;
pub mod positions;
pub mod hashing;
pub mod pruning;
pub mod search;
pub mod gameboard;
pub mod rule_laws;
