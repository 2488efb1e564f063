//! The picker's parts: the alignment grid, the scoring functions, the ranking
//! order, the session that keystrokes drive, and the key decoder.

pub mod algo;
pub mod align;
pub mod keys;
pub mod rank;
pub mod ui;
