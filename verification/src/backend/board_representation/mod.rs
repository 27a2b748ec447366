pub mod movement;
pub mod repetition_counter;
