pub mod memomap;
pub mod database;
