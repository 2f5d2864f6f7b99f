use vstd::prelude::*;

verus! {

/// A 3-D integer triple: one unit cube of a polycube shape, or a grid cell.
#[derive(Clone, Copy, Debug, PartialEq, Eq, Structural)]
pub struct Coord {
    pub x: i32,
    pub y: i32,
    pub z: i32,
}

impl Coord {
    pub fn new(x: i32, y: i32, z: i32) -> (r: Coord)
        ensures
            r.x == x,
            r.y == y,
            r.z == z,
    {
        Coord { x, y, z }
    }
}

/// A coordinate paired with its linear cell offset on a cubic grid of the
/// given edge length (offset = x + y*size + z*size^2).
#[derive(Clone, Copy, Debug, PartialEq, Eq, Structural)]
pub struct Block {
    pub coord: Coord,
    pub offset: i32,
}

impl Block {
    pub fn new(coord: Coord, size: usize) -> (r: Block)
        requires
            0 <= coord.x < size,
            0 <= coord.y < size,
            0 <= coord.z < size,
            size * size * size <= i32::MAX,
        ensures
            r.coord == coord,
            r.offset == coord.x + coord.y * (size as int) + coord.z * (size as int) * (size as int),
    {
        Block { coord, offset: Self::to_offset(coord, size) }
    }

    /// The linear cell index of `coord` on a grid of edge `size`,
    /// x varying fastest and z slowest.
    pub fn to_offset(coord: Coord, size: usize) -> (r: i32)
        requires
            0 <= coord.x < size,
            0 <= coord.y < size,
            0 <= coord.z < size,
            size * size * size <= i32::MAX,
        ensures
            r == coord.x + coord.y * (size as int) + coord.z * (size as int) * (size as int),
            0 <= r < size * size * size,
    {
        proof {
            assert(1 <= size);
            let s = size as int;
            let x = coord.x as int;
            let y = coord.y as int;
            let z = coord.z as int;
            assert(0 <= y * s && y * s <= (s - 1) * s && (s - 1) * s < s * s && 0 <= z * s
                && z * s <= (s - 1) * s && 0 <= (z * s) * s && (z * s) * s <= ((s - 1) * s) * s
                && ((s - 1) * s) * s <= s * s * s - s * s
                && x + y * s + z * s * s <= s * s * s - 1 && s * s <= s * s * s && s <= s * s
                * s) by (nonlinear_arith)
                requires
                    0 <= x < s,
                    0 <= y < s,
                    0 <= z < s,
            ;
        }
        coord.x + coord.y * (size as i32) + coord.z * (size as i32) * (size as i32)
    }
}

} // verus!
