//! Grid containers, height-field synthesis and constrained shortest-path search
//! for a turn-based strategy game on a square grid.
pub mod utils;
pub mod grid;
pub mod distance;
pub mod constraint;
pub mod path_planning;
pub mod heightmap;
