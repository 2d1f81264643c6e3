use vstd::prelude::*;

verus! {

/// Screen pixels per lattice cell, horizontally.
pub const SCALE_X: u32 = 8;

/// Screen pixels per lattice cell, vertically.
pub const SCALE_Y: u32 = 8;

/// Number of nodes in each row of the lattice.
pub const U_X: usize = 32;

/// Number of rows of the lattice.
pub const U_Y: usize = 32;

/// `U_X` as a screen coordinate type.
pub const X: u32 = 32;

/// `U_Y` as a screen coordinate type.
pub const Y: u32 = 32;

/// The lattice cell under the screen point `(c0, c1)`: each coordinate divided
/// by the number of pixels per cell along its axis.
pub fn cursor_cell(c0: u32, c1: u32) -> (cell: (usize, usize))
    ensures
        cell.0 == c0 / SCALE_X,
        cell.1 == c1 / SCALE_Y,
        c0 < X * SCALE_X ==> cell.0 < U_Y,
        c1 < Y * SCALE_Y ==> cell.1 < U_X,
{
    ((c0 / SCALE_X) as usize, (c1 / SCALE_Y) as usize)
}

} // verus!
