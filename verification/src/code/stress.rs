pub mod brute_force;
pub mod generator;
