//! A verified Minesweeper rule engine: grid state, cell revealing with
//! flood-fill cascade, flagging, and win/loss detection.

pub mod counting;
pub mod laws;
pub mod minesweeper;
pub mod random;
