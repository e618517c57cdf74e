//! A verified wave-function-collapse tiler for a catalogue of edge-typed
//! square tiles: a bounded 2D grid, an orientation model, a weighted tile
//! catalogue, and a solver that collapses cells one by one while keeping
//! every pair of adjacent resolved cells in agreement on their shared edge.

pub mod direction;
pub mod feature;
pub mod fixed_map;
pub mod map;
pub mod randomness;
pub mod rotated_tile;
pub mod rotation;
pub mod tile;
pub mod wave_function;
