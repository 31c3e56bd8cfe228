pub mod b;
pub mod c;
pub mod stress;
pub mod template;
