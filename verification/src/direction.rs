use vstd::prelude::*;

verus! {

/// Number of discrete velocities of the D2Q9 model.
pub const Q: usize = 9;

/// The direction opposite to `d`.  Directions are numbered
///
/// ```text
///  6 | 2 | 5
/// ---+---+---
///  3 | 0 | 1
/// ---+---+---
///  7 | 4 | 8
/// ```
///
/// so that 1/3, 2/4, 5/7 and 6/8 are opposite pairs and 0 is its own opposite.
pub open spec fn opposite(d: int) -> int {
    if d == 0 {
        0
    } else if d == 1 || d == 2 || d == 5 || d == 6 {
        d + 2
    } else {
        d - 2
    }
}

/// Row offset (first index of the node grid) of the neighbour that the
/// streaming pass pairs with slot `d` of a node.
pub open spec fn link_dx(d: int) -> int {
    if d == 1 || d == 5 || d == 8 {
        1
    } else if d == 3 || d == 6 || d == 7 {
        -1
    } else {
        0
    }
}

/// Column offset (second index of the node grid) of the neighbour that the
/// streaming pass pairs with slot `d` of a node.
pub open spec fn link_dy(d: int) -> int {
    if d == 4 || d == 7 || d == 8 {
        1
    } else if d == 2 || d == 5 || d == 6 {
        -1
    } else {
        0
    }
}

/// Taking the opposite twice gives the direction back, and the opposite of a
/// direction is a direction.
pub proof fn lemma_opposite_involution(d: int)
    requires
        0 <= d < Q,
    ensures
        0 <= opposite(d) < Q,
        opposite(opposite(d)) == d,
        link_dx(opposite(d)) == -link_dx(d),
        link_dy(opposite(d)) == -link_dy(d),
{
}

/// The opposite of direction `d`, for `d < Q`.
pub fn opposite_dir(d: usize) -> (r: usize)
    requires
        d < Q,
    ensures
        r == opposite(d as int),
{
    if d == 0 {
        0
    } else if d == 1 || d == 2 || d == 5 || d == 6 {
        d + 2
    } else {
        d - 2
    }
}

} // verus!
