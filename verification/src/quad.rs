use vstd::prelude::*;

use crate::chunk::Direction;

verus! {

/// One exposed unit face of an occupied voxel: the face direction, the
/// coordinates of the voxel that owns the face, and the voxel's one-byte
/// color (a palette index; see [`crate::chunk::Chunk::set`]).
#[derive(Clone, Copy, Debug, PartialEq, Eq, Structural, PartialOrd, Ord)]
pub struct Quad {
    pub direction: Direction,
    pub x: usize,
    pub y: usize,
    pub z: usize,
    pub color: u8,
}

impl Quad {
    /// Builds a quad for the face `direction` of the voxel at `(x, y, z)`.
    pub fn new(direction: Direction, x: usize, y: usize, z: usize, color: u8) -> (q: Quad)
        requires
            x < 32,
            y < 32,
            z < 32,
        ensures
            q == (Quad { direction, x, y, z, color }),
    {
        Quad { direction, x, y, z, color }
    }
}

} // verus!
