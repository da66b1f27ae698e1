pub mod data;
mod rng;
pub mod single_state;
pub mod memory_state;
pub mod laws;
