//! Cell addressing of the Barnes–Hut octree.
//!
//! A body falls into one of a cell's eight octants by which side of the cell centre it lies on
//! along each axis (the comparisons are the caller's, in floating point); the octant index packs the
//! three sides into bits 0 (x), 1 (y) and 2 (z), and the child cell's centre is offset up or down
//! each axis by that same bit.

use vstd::prelude::*;

verus! {

/// Subdivision stops at this depth: coincident bodies collapse into one bucket leaf.
pub const MAX_DEPTH: u32 = 28;

/// The octant index of a body on the upper (≥ centre) or lower side of each axis.
pub open spec fn octant_spec(upper_x: bool, upper_y: bool, upper_z: bool) -> int {
    (if upper_x { 1int } else { 0 }) + (if upper_y { 2int } else { 0 }) + (if upper_z { 4int } else { 0 })
}

/// The octant a body belongs to.
pub fn octant(upper_x: bool, upper_y: bool, upper_z: bool) -> (o: usize)
    ensures
        o == octant_spec(upper_x, upper_y, upper_z),
        o < 8,
{
    let x: usize = if upper_x { 1 } else { 0 };
    let y: usize = if upper_y { 2 } else { 0 };
    let z: usize = if upper_z { 4 } else { 0 };
    let o = x | y | z;
    assert(o == x + y + z) by (bit_vector)
        requires
            o == x | y | z,
            x == 0 || x == 1,
            y == 0 || y == 2,
            z == 0 || z == 4,
    ;
    o
}

/// Which side of each axis octant `o`'s child cell lies on (upper = the centre is offset up).
pub fn octant_sides(o: usize) -> (sides: (bool, bool, bool))
    requires
        o < 8,
    ensures
        octant_spec(sides.0, sides.1, sides.2) == o,
{
    let sx = o & 1 != 0;
    let sy = o & 2 != 0;
    let sz = o & 4 != 0;
    assert(o == (if o & 1 != 0 { 1usize } else { 0 }) + (if o & 2 != 0 { 2usize } else { 0 }) + (
    if o & 4 != 0 { 4usize } else { 0 })) by (bit_vector)
        requires
            o < 8,
    ;
    (sx, sy, sz)
}

/// A cell with `body_count` bodies at `depth` is a leaf: a single body (or none), or the depth cap.
pub fn becomes_leaf(body_count: usize, depth: u32) -> (leaf: bool)
    ensures
        leaf == (body_count <= 1 || depth >= MAX_DEPTH),
{
    body_count <= 1 || depth >= MAX_DEPTH
}

/// Addressing round-trips: a body's octant, read back as sides, gives the body's own sides — so
/// each body is placed in the child whose centre lies on its side of every axis.
pub proof fn lemma_octant_round_trip(upper_x: bool, upper_y: bool, upper_z: bool, sides: (bool, bool, bool))
    requires
        octant_spec(sides.0, sides.1, sides.2) == octant_spec(upper_x, upper_y, upper_z),
    ensures
        sides == (upper_x, upper_y, upper_z),
{
}

} // verus!
