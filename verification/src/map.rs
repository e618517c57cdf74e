use vstd::prelude::*;

verus! {

/// Point in a 2-dimensional grid, addressed by signed coordinates.
pub type Point2D = (isize, isize);

} // verus!
