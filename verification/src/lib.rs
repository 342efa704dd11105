pub mod board;
pub mod eval;
pub mod patterns;
pub mod rules;
pub mod search;
pub mod sums;
pub mod zobrist;
