//! Integer coordinates of unit cells.

use vstd::prelude::*;

verus! {

/// A unit cell of world space, by its signed integer coordinates.
#[derive(Clone, Copy, Debug, PartialEq, Eq, Structural)]
pub struct Position {
    pub x: i32,
    pub y: i32,
    pub z: i32,
}

/// A unit cell relative to the low corner of a cube: no axis is negative.
#[derive(Clone, Copy, Debug, PartialEq, Eq, Structural)]
pub struct LocalPos {
    pub x: u32,
    pub y: u32,
    pub z: u32,
}

impl Position {
    /// The cell with the given coordinates.
    pub fn new(x: i32, y: i32, z: i32) -> (p: Position)
        ensures
            p == (Position { x, y, z }),
    {
        Position { x, y, z }
    }
}

impl LocalPos {
    /// The cell with the given coordinates.
    pub fn new(x: u32, y: u32, z: u32) -> (p: LocalPos)
        ensures
            p == (LocalPos { x, y, z }),
    {
        LocalPos { x, y, z }
    }
}

} // verus!
