pub mod geometry;
pub mod io;
pub mod structures;
