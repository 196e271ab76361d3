//! Integer vectors for grid sizes and cell positions.

use vstd::prelude::*;

verus! {

/// Extent of a 2D grid, in cells.
#[derive(Clone, Copy, Debug, PartialEq, Eq, Structural)]
pub struct UVec2 {
    pub x: u32,
    pub y: u32,
}

/// Position of a cell in a 2D grid. Positions beyond the grid are valid values.
#[derive(Clone, Copy, Debug, PartialEq, Eq, Structural)]
pub struct IVec2 {
    pub x: i32,
    pub y: i32,
}

/// Extent of a 3D grid, in cells.
#[derive(Clone, Copy, Debug, PartialEq, Eq, Structural)]
pub struct UVec3 {
    pub x: u32,
    pub y: u32,
    pub z: u32,
}

/// Position of a cell in a 3D grid. Positions beyond the grid are valid values.
#[derive(Clone, Copy, Debug, PartialEq, Eq, Structural)]
pub struct IVec3 {
    pub x: i32,
    pub y: i32,
    pub z: i32,
}

impl UVec2 {
    pub fn new(x: u32, y: u32) -> (v: Self)
        ensures
            v == (UVec2 { x, y }),
    {
        UVec2 { x, y }
    }
}

impl IVec2 {
    pub fn new(x: i32, y: i32) -> (v: Self)
        ensures
            v == (IVec2 { x, y }),
    {
        IVec2 { x, y }
    }
}

impl UVec3 {
    pub fn new(x: u32, y: u32, z: u32) -> (v: Self)
        ensures
            v == (UVec3 { x, y, z }),
    {
        UVec3 { x, y, z }
    }
}

impl IVec3 {
    pub fn new(x: i32, y: i32, z: i32) -> (v: Self)
        ensures
            v == (IVec3 { x, y, z }),
    {
        IVec3 { x, y, z }
    }
}

} // verus!
