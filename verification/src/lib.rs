pub mod a_star;
pub mod board;
