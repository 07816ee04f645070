//! Verified core of a full-search database builder for 8x8 Othello.
#[allow(unused_imports)]
use vstd::prelude::*;

pub mod analysis;
pub mod board;
pub mod cli;
pub mod count;
pub mod error;
pub mod key;
pub mod perft;
pub mod progress;
pub mod report;
pub mod results;
pub mod retrograde;
pub mod rules;
pub mod run;
pub mod search;
pub mod side;
pub mod squares;
pub mod sums;
pub mod tables;
pub mod text;
pub mod tree;
