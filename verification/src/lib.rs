//! Core data model for a tile-matching puzzle game: a fixed 5x5 grid of
//! colored cells, with single-cell access, connected-region erasure, and a
//! textual rendering for debugging.

pub mod board_matrix;
pub mod color;
