//! Points with integer coordinates and the squared-distance measure.

use vstd::prelude::*;

verus! {

/// Every coordinate handled by the index is kept within this magnitude so
/// that squared distances fit in `i128` and bin arithmetic fits in `i64`.
pub const COORD_LIMIT: i64 = 0x20_0000_0000_0000;

/// A point (or per-axis vector, such as the bin widths) in the 3D space.
#[derive(Clone, Copy, Debug, PartialEq, Eq, Structural)]
pub struct Point3 {
    pub x: i64,
    pub y: i64,
    pub z: i64,
}

/// All three coordinates within the magnitude the index accepts.
pub open spec fn pt_bounded(p: Point3) -> bool {
    &&& -COORD_LIMIT <= p.x <= COORD_LIMIT
    &&& -COORD_LIMIT <= p.y <= COORD_LIMIT
    &&& -COORD_LIMIT <= p.z <= COORD_LIMIT
}

/// Squared Euclidean distance between two points, as a mathematical integer.
pub open spec fn dist2(a: Point3, b: Point3) -> int {
    (a.x - b.x) * (a.x - b.x) + (a.y - b.y) * (a.y - b.y) + (a.z - b.z) * (a.z - b.z)
}

/// Computes `dist2` exactly; `i128` is wide enough for bounded coordinates.
pub fn dist2_exec(a: Point3, b: Point3) -> (r: i128)
    requires
        pt_bounded(a),
        pt_bounded(b),
    ensures
        r == dist2(a, b),
{
    let dx: i128 = (a.x as i128) - (b.x as i128);
    let dy: i128 = (a.y as i128) - (b.y as i128);
    let dz: i128 = (a.z as i128) - (b.z as i128);
    proof {
        let lim = 2 * (COORD_LIMIT as int);
        assert(0 <= dx * dx <= lim * lim) by (nonlinear_arith)
            requires
                -lim <= dx <= lim,
        ;
        assert(0 <= dy * dy <= lim * lim) by (nonlinear_arith)
            requires
                -lim <= dy <= lim,
        ;
        assert(0 <= dz * dz <= lim * lim) by (nonlinear_arith)
            requires
                -lim <= dz <= lim,
        ;
    }
    dx * dx + dy * dy + dz * dz
}

} // verus!
