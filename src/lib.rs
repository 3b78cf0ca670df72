//! Deductive inference for Minesweeper-style grids: from a partially revealed
//! board, find the hidden cells that are provably mined or provably safe.
pub mod board;
pub mod rules;
pub mod engine;
pub mod laws;
pub mod observe;
