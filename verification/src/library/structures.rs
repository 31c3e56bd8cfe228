pub mod sparse_table;
