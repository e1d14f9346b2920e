//! Conway's Game of Life on a bounded square grid: the simulation engine.
pub mod grid;
pub mod theorems;
