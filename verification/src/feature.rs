use vstd::prelude::*;

verus! {

/// Terrain feature visible on one side of a tile.
#[derive(Debug, Copy, Clone, PartialEq, Eq, Structural)]
pub enum Feature {
    City,
    Forest,
    Road,
}

} // verus!
