//! A solver for minesweeper-like puzzles over arbitrary cell graphs, with
//! regional mine-count hints. It keeps interval constraints on the number of
//! mines in regions of cells, derives new ones by crossing overlapping
//! regions, and reveals or flags the cells that a constraint settles, one
//! step at a time and without guessing.
pub mod bitset;
pub mod constraint;
pub mod puzzle;
pub mod solver;
pub mod parser;
pub mod engine;
