pub mod structures;
pub mod interface;
pub mod negamax;
pub mod negaalpha;
pub mod memomax;
pub mod negamemomax;
pub mod negaalphakiller;
pub mod negaquiescence;
pub mod pvs;
pub mod omikron;
