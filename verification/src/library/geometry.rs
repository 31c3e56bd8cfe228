pub mod convex_hull;
pub mod point;
