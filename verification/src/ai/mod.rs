pub mod structures;
pub mod interface;
pub mod minimax;
pub mod alphabeta;
pub mod memomax;
pub mod agreement;
