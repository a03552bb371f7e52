//! A small, fully verified core for a feed-forward digit classifier:
//! a dense matrix engine with exact integer arithmetic, a parser for the
//! big-endian length-prefixed tensor format the sample files use, and the
//! bookkeeping state machine that drives training and evaluation.

pub mod load;
pub mod matrix;
pub mod train;
