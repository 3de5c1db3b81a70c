pub mod ascii;
pub mod cell;
pub mod dijkstra;
pub mod error;
pub mod grid;
pub mod xy;
