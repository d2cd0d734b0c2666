//! Scoring of a letter-bag word puzzle: which word of a dictionary fits a bag
//! of letters best, and how often that word is the expected one.

pub mod batch;
pub mod letter_count;
pub mod lines;
pub mod matcher;
pub mod parser;
pub mod score;
pub mod sums;
