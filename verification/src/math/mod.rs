pub mod index_arith;
pub mod matrix;
pub mod vector;
