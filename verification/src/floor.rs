//! The checkerboard pattern of the floor of the path-traced scene.

use vstd::prelude::*;

verus! {

/// Whether the floor cell `(ix, iy)` (the integer parts of the hit point's x and z)
/// is an even cell of the checkerboard, the diffuse one; odd cells are specular.
pub fn checker_cell_is_even(ix: i32, iy: i32) -> (even: bool)
    requires
        i32::MIN <= ix + iy <= i32::MAX,
    ensures
        even == ((ix + iy) % 2 == 0),
{
    let s = ix + iy;
    let b = s & 1;
    assert((s & 1) == 0 <==> s % 2 == 0) by (bit_vector);
    b == 0
}

} // verus!
