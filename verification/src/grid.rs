//! The bin grid: origin, per-axis bin coordinates by floored division, the
//! row-major flattened bin key, and the arithmetic facts about them that the
//! construction and search proofs rely on.

use vstd::prelude::*;
use vstd::arithmetic::div_mod::lemma_div_is_ordered;
use vstd::arithmetic::div_mod::lemma_fundamental_div_mod;
use vstd::arithmetic::div_mod::lemma_fundamental_div_mod_converse;
use vstd::arithmetic::div_mod::lemma_mod_pos_bound;
use crate::geom::COORD_LIMIT;
use crate::geom::Point3;
use crate::geom::dist2;
use crate::geom::pt_bounded;

verus! {

// ------------------------------------------------------------------
// Minimum / maximum of an integer sequence
// ------------------------------------------------------------------

/// Least element of a non-empty integer sequence.
pub open spec fn seq_min(s: Seq<int>) -> int
    decreases s.len(),
{
    if s.len() <= 1 {
        s[0]
    } else {
        let m = seq_min(s.drop_last());
        if s.last() < m {
            s.last()
        } else {
            m
        }
    }
}

/// Greatest element of a non-empty integer sequence.
pub open spec fn seq_max(s: Seq<int>) -> int
    decreases s.len(),
{
    if s.len() <= 1 {
        s[0]
    } else {
        let m = seq_max(s.drop_last());
        if s.last() > m {
            s.last()
        } else {
            m
        }
    }
}

pub proof fn lemma_seq_min_props(s: Seq<int>)
    requires
        s.len() >= 1,
    ensures
        forall|i: int| 0 <= i < s.len() ==> seq_min(s) <= #[trigger] s[i],
        exists|i: int| 0 <= i < s.len() && seq_min(s) == s[i],
    decreases s.len(),
{
    if s.len() <= 1 {
        assert(seq_min(s) == s[0]);
    } else {
        let sub = s.drop_last();
        lemma_seq_min_props(sub);
        assert(forall|i: int| 0 <= i < sub.len() ==> sub[i] == s[i]);
        if s.last() < seq_min(sub) {
            assert(seq_min(s) == s[s.len() - 1]);
        } else {
            let i = choose|i: int| 0 <= i < sub.len() && seq_min(sub) == sub[i];
            assert(seq_min(s) == s[i]);
        }
    }
}

pub proof fn lemma_seq_max_props(s: Seq<int>)
    requires
        s.len() >= 1,
    ensures
        forall|i: int| 0 <= i < s.len() ==> #[trigger] s[i] <= seq_max(s),
        exists|i: int| 0 <= i < s.len() && seq_max(s) == s[i],
    decreases s.len(),
{
    if s.len() <= 1 {
        assert(seq_max(s) == s[0]);
    } else {
        let sub = s.drop_last();
        lemma_seq_max_props(sub);
        assert(forall|i: int| 0 <= i < sub.len() ==> sub[i] == s[i]);
        if s.last() > seq_max(sub) {
            assert(seq_max(s) == s[s.len() - 1]);
        } else {
            let i = choose|i: int| 0 <= i < sub.len() && seq_max(sub) == sub[i];
            assert(seq_max(s) == s[i]);
        }
    }
}

pub proof fn lemma_seq_min_push(s: Seq<int>, v: int)
    requires
        s.len() >= 1,
    ensures
        seq_min(s.push(v)) == (if v < seq_min(s) {
            v
        } else {
            seq_min(s)
        }),
{
    let t = s.push(v);
    assert(t.drop_last() =~= s);
    assert(t.last() == v);
}

pub proof fn lemma_seq_max_push(s: Seq<int>, v: int)
    requires
        s.len() >= 1,
    ensures
        seq_max(s.push(v)) == (if v > seq_max(s) {
            v
        } else {
            seq_max(s)
        }),
{
    let t = s.push(v);
    assert(t.drop_last() =~= s);
    assert(t.last() == v);
}

// ------------------------------------------------------------------
// Axis projections and grid quantities
// ------------------------------------------------------------------

pub open spec fn xs(pts: Seq<Point3>) -> Seq<int> {
    Seq::new(pts.len(), |i: int| pts[i].x as int)
}

pub open spec fn ys(pts: Seq<Point3>) -> Seq<int> {
    Seq::new(pts.len(), |i: int| pts[i].y as int)
}

pub open spec fn zs(pts: Seq<Point3>) -> Seq<int> {
    Seq::new(pts.len(), |i: int| pts[i].z as int)
}

/// The grid origin: the column-wise minimum of the point set.
pub open spec fn origin_of(pts: Seq<Point3>) -> Point3 {
    Point3 {
        x: seq_min(xs(pts)) as i64,
        y: seq_min(ys(pts)) as i64,
        z: seq_min(zs(pts)) as i64,
    }
}

/// Per-axis bin coordinate: the floor of `(coordinate - origin) / width`.
/// In spec arithmetic `/` is Euclidean division, which is the floor for a
/// positive divisor.
pub open spec fn bin_x(p: Point3, o: Point3, w: Point3) -> int {
    (p.x - o.x) / (w.x as int)
}

pub open spec fn bin_y(p: Point3, o: Point3, w: Point3) -> int {
    (p.y - o.y) / (w.y as int)
}

pub open spec fn bin_z(p: Point3, o: Point3, w: Point3) -> int {
    (p.z - o.z) / (w.z as int)
}

pub open spec fn bxs(pts: Seq<Point3>, o: Point3, w: Point3) -> Seq<int> {
    Seq::new(pts.len(), |i: int| bin_x(pts[i], o, w))
}

pub open spec fn bys(pts: Seq<Point3>, o: Point3, w: Point3) -> Seq<int> {
    Seq::new(pts.len(), |i: int| bin_y(pts[i], o, w))
}

pub open spec fn bzs(pts: Seq<Point3>, o: Point3, w: Point3) -> Seq<int> {
    Seq::new(pts.len(), |i: int| bin_z(pts[i], o, w))
}

/// Per-axis bin count: the greatest bin coordinate of any point, plus one.
pub open spec fn shape_x(pts: Seq<Point3>, w: Point3) -> int {
    seq_max(bxs(pts, origin_of(pts), w)) + 1
}

pub open spec fn shape_y(pts: Seq<Point3>, w: Point3) -> int {
    seq_max(bys(pts, origin_of(pts), w)) + 1
}

pub open spec fn shape_z(pts: Seq<Point3>, w: Point3) -> int {
    seq_max(bzs(pts, origin_of(pts), w)) + 1
}

/// Number of bins in the grid.
pub open spec fn volume_of(pts: Seq<Point3>, w: Point3) -> int {
    shape_x(pts, w) * shape_y(pts, w) * shape_z(pts, w)
}

/// Row-major flattening of a 3D bin coordinate.
pub open spec fn flat_key(bx: int, by: int, bz: int, sy: int, sz: int) -> int {
    bx * sy * sz + by * sz + bz
}

/// Lexicographic order on 3D bin coordinates, the order in which a search
/// visits candidate bins.
pub open spec fn lex_lt(x1: int, y1: int, z1: int, x2: int, y2: int, z2: int) -> bool {
    x1 < x2 || (x1 == x2 && (y1 < y2 || (y1 == y2 && z1 < z2)))
}

// ------------------------------------------------------------------
// Facts about the flattened key
// ------------------------------------------------------------------

pub proof fn lemma_flat_key_range(bx: int, by: int, bz: int, sx: int, sy: int, sz: int)
    by (nonlinear_arith)
    requires
        0 <= bx < sx,
        0 <= by < sy,
        0 <= bz < sz,
    ensures
        0 <= flat_key(bx, by, bz, sy, sz) < sx * sy * sz,
{
}

/// The flattening respects the lexicographic bin order, so it is injective
/// over the grid.
pub proof fn lemma_flat_key_lex(
    x1: int, y1: int, z1: int,
    x2: int, y2: int, z2: int,
    sx: int, sy: int, sz: int,
)
    requires
        0 <= x1 < sx,
        0 <= y1 < sy,
        0 <= z1 < sz,
        0 <= x2 < sx,
        0 <= y2 < sy,
        0 <= z2 < sz,
    ensures
        lex_lt(x1, y1, z1, x2, y2, z2) <==> flat_key(x1, y1, z1, sy, sz) < flat_key(
            x2, y2, z2, sy, sz),
        flat_key(x1, y1, z1, sy, sz) == flat_key(x2, y2, z2, sy, sz) ==> (x1 == x2 && y1 == y2
            && z1 == z2),
{
    assert(lex_lt(x1, y1, z1, x2, y2, z2) ==> flat_key(x1, y1, z1, sy, sz) < flat_key(
        x2, y2, z2, sy, sz)) by (nonlinear_arith)
        requires
            0 <= x1 < sx, 0 <= y1 < sy, 0 <= z1 < sz,
            0 <= x2 < sx, 0 <= y2 < sy, 0 <= z2 < sz,
    ;
    assert(lex_lt(x2, y2, z2, x1, y1, z1) ==> flat_key(x2, y2, z2, sy, sz) < flat_key(
        x1, y1, z1, sy, sz)) by (nonlinear_arith)
        requires
            0 <= x1 < sx, 0 <= y1 < sy, 0 <= z1 < sz,
            0 <= x2 < sx, 0 <= y2 < sy, 0 <= z2 < sz,
    ;
}

// ------------------------------------------------------------------
// Floored division on machine integers
// ------------------------------------------------------------------

/// Floored integer division (rounding toward negative infinity), matching
/// the Euclidean `/` of spec arithmetic for a positive divisor.
pub fn floor_div(a: i64, b: i64) -> (q: i64)
    requires
        1 <= b <= COORD_LIMIT,
        -4 * (COORD_LIMIT as int) <= a <= 4 * (COORD_LIMIT as int),
    ensures
        q == (a as int) / (b as int),
{
    if a >= 0 {
        let qu: u64 = (a as u64) / (b as u64);
        qu as i64
    } else {
        let na: u64 = (-a) as u64;
        let bu: u64 = b as u64;
        let qc: u64 = (na + bu - 1) / bu;
        proof {
            let aa = a as int;
            let bb = b as int;
            let u = (na + bu - 1) as int;
            lemma_fundamental_div_mod(u, bb);
            lemma_mod_pos_bound(u, bb);
            let r = u % bb;
            // a == (-(u / bb)) * bb + (bb - 1 - r), with the remainder in range
            assert(aa == (-(u / bb)) * bb + (bb - 1 - r)) by (nonlinear_arith)
                requires
                    u == bb * (u / bb) + r,
                    u == -aa + bb - 1,
            ;
            lemma_fundamental_div_mod_converse(aa, bb, -(u / bb), bb - 1 - r);
        }
        -(qc as i64)
    }
}

/// The column-wise minimum of a non-empty point set: the grid origin.
pub fn compute_origin(pts: &Vec<Point3>) -> (o: Point3)
    requires
        pts@.len() >= 1,
        forall|i: int| 0 <= i < pts@.len() ==> pt_bounded(#[trigger] pts@[i]),
    ensures
        o == origin_of(pts@),
        pt_bounded(o),
{
    let mut ox = pts[0].x;
    let mut oy = pts[0].y;
    let mut oz = pts[0].z;
    let mut i: usize = 1;
    proof {
        assert(xs(pts@.take(1)) =~= Seq::<int>::empty().push(pts@[0].x as int));
        assert(ys(pts@.take(1)) =~= Seq::<int>::empty().push(pts@[0].y as int));
        assert(zs(pts@.take(1)) =~= Seq::<int>::empty().push(pts@[0].z as int));
    }
    while i < pts.len()
        invariant
            1 <= i <= pts@.len(),
            forall|k: int| 0 <= k < pts@.len() ==> pt_bounded(#[trigger] pts@[k]),
            ox as int == seq_min(xs(pts@.take(i as int))),
            oy as int == seq_min(ys(pts@.take(i as int))),
            oz as int == seq_min(zs(pts@.take(i as int))),
            -COORD_LIMIT <= ox <= COORD_LIMIT,
            -COORD_LIMIT <= oy <= COORD_LIMIT,
            -COORD_LIMIT <= oz <= COORD_LIMIT,
        decreases pts@.len() - i,
    {
        proof {
            assert(xs(pts@.take(i + 1)) =~= xs(pts@.take(i as int)).push(pts@[i as int].x as int));
            assert(ys(pts@.take(i + 1)) =~= ys(pts@.take(i as int)).push(pts@[i as int].y as int));
            assert(zs(pts@.take(i + 1)) =~= zs(pts@.take(i as int)).push(pts@[i as int].z as int));
            lemma_seq_min_push(xs(pts@.take(i as int)), pts@[i as int].x as int);
            lemma_seq_min_push(ys(pts@.take(i as int)), pts@[i as int].y as int);
            lemma_seq_min_push(zs(pts@.take(i as int)), pts@[i as int].z as int);
        }
        if pts[i].x < ox {
            ox = pts[i].x;
        }
        if pts[i].y < oy {
            oy = pts[i].y;
        }
        if pts[i].z < oz {
            oz = pts[i].z;
        }
        i = i + 1;
    }
    proof {
        assert(pts@.take(pts@.len() as int) =~= pts@);
    }
    Point3 { x: ox, y: oy, z: oz }
}

/// A point within squared distance `r * r` of the query lies, axis by axis,
/// between the bin coordinates of the two corners of the query box.
pub proof fn lemma_ball_in_box(p: Point3, q: Point3, o: Point3, w: Point3, r: int)
    requires
        0 <= r,
        dist2(p, q) <= r * r,
        1 <= w.x,
        1 <= w.y,
        1 <= w.z,
    ensures
        (q.x - r - o.x) / (w.x as int) <= bin_x(p, o, w) <= (q.x + r - o.x) / (w.x as int),
        (q.y - r - o.y) / (w.y as int) <= bin_y(p, o, w) <= (q.y + r - o.y) / (w.y as int),
        (q.z - r - o.z) / (w.z as int) <= bin_z(p, o, w) <= (q.z + r - o.z) / (w.z as int),
{
    assert((p.x - q.x) * (p.x - q.x) <= r * r && (p.y - q.y) * (p.y - q.y) <= r * r && (p.z
        - q.z) * (p.z - q.z) <= r * r) by (nonlinear_arith)
        requires
            dist2(p, q) <= r * r,
    ;
    assert(q.x - r <= p.x <= q.x + r) by (nonlinear_arith)
        requires
            (p.x - q.x) * (p.x - q.x) <= r * r,
            0 <= r,
    ;
    assert(q.y - r <= p.y <= q.y + r) by (nonlinear_arith)
        requires
            (p.y - q.y) * (p.y - q.y) <= r * r,
            0 <= r,
    ;
    assert(q.z - r <= p.z <= q.z + r) by (nonlinear_arith)
        requires
            (p.z - q.z) * (p.z - q.z) <= r * r,
            0 <= r,
    ;
    lemma_div_is_ordered(q.x - r - o.x, p.x - o.x, w.x as int);
    lemma_div_is_ordered(p.x - o.x, q.x + r - o.x, w.x as int);
    lemma_div_is_ordered(q.y - r - o.y, p.y - o.y, w.y as int);
    lemma_div_is_ordered(p.y - o.y, q.y + r - o.y, w.y as int);
    lemma_div_is_ordered(q.z - r - o.z, p.z - o.z, w.z as int);
    lemma_div_is_ordered(p.z - o.z, q.z + r - o.z, w.z as int);
}

} // verus!
