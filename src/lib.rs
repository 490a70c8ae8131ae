//! A board-state engine for a wall-and-pawn race game played on a square grid.
//!
//! `player` holds the identities and per-player counters; `grid` the cells,
//! walls and open steps; `board` the cell table, the wall ledger, the path
//! search, the move rules and the turn state.
pub mod board;
pub mod grid;
pub mod player;
