//! A verified model of a small two-player grid game: a square board of
//! cells, move validation, placement, terminal-state detection, and a
//! naive opponent that takes the first free cell.

pub mod tablero;
