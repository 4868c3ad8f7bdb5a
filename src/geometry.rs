use vstd::prelude::*;

verus! {

/// Index of the quadrant on the given sides of a region's center.
pub open spec fn quadrant_index(right: bool, above: bool) -> int {
    (if above { 2int } else { 0int }) + (if right { 1int } else { 0int })
}

/// Index of the quadrant selected by the two axis tests of a point against a
/// region's center: bit 0 is set when the point lies strictly right of the
/// center, bit 1 when it lies strictly above it. Equality goes to the lower
/// side on both axes, so insertion and traversal agree on ties.
pub fn quadrant(right: bool, above: bool) -> (r: usize)
    ensures
        r < 4,
        r % 2 == 1 <==> right,
        r / 2 == 1 <==> above,
        r == quadrant_index(right, above),
{
    let x: usize = if right { 1 } else { 0 };
    let y: usize = if above { 2 } else { 0 };
    y + x
}

/// The sides of the center on which quadrant `q` lies: right for bit 0,
/// above for bit 1. The inverse of `quadrant`.
pub fn quadrant_sides(q: usize) -> (r: (bool, bool))
    requires
        q < 4,
    ensures
        quadrant_index(r.0, r.1) == q,
{
    (q % 2 == 1, q / 2 == 1)
}

} // verus!
