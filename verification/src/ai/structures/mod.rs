pub mod killerray;
pub mod memomap;
pub mod updatemap;
