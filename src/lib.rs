//! Scans an engine schematic (a grid of digits, filler dots and symbols) for the numbers
//! that touch a symbol, and sums them; with small solvers for cube games, seed almanacs and
//! boat races.
pub mod almanac;
pub mod cubes;
pub mod races;
pub mod schematic;
pub mod text;
