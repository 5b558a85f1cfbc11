//! The bucketed spatial index: construction, radius search with removal,
//! result accumulation, and reset.
//!
//! The index keeps, per bin, an intrusive singly linked chain of
//! sorted-point indices held in two plain arrays (`first_member` per bin and
//! `next_member` per point), exactly as an arena of indices. Every chain is
//! mirrored by a ghost sequence of its members in traversal order; the
//! invariant ties the two representations together, and ties membership to
//! the accumulator: a point is in a chain precisely until it is found.

use vstd::prelude::*;
use crate::geom::COORD_LIMIT;
use crate::geom::Point3;
use crate::geom::dist2;
use crate::geom::dist2_exec;
use crate::geom::pt_bounded;
use crate::grid::bin_x;
use crate::grid::bin_y;
use crate::grid::bin_z;
use crate::grid::bxs;
use crate::grid::bys;
use crate::grid::bzs;
use crate::grid::compute_origin;
use crate::grid::flat_key;
use crate::grid::floor_div;
use crate::grid::lemma_ball_in_box;
use crate::grid::lemma_flat_key_lex;
use crate::grid::lemma_flat_key_range;
use crate::grid::lemma_seq_max_props;
use crate::grid::lemma_seq_max_push;
use crate::grid::lemma_seq_min_props;
use crate::grid::origin_of;
use crate::grid::seq_max;
use crate::grid::seq_min;
use crate::grid::shape_x;
use crate::grid::shape_y;
use crate::grid::shape_z;
use crate::grid::volume_of;
use crate::grid::xs;
use crate::grid::ys;
use crate::grid::zs;
use crate::sort::stable_order;
use vstd::arithmetic::div_mod::lemma_div_basics_5;

verus! {

/// One slot of the intrusive chains: end of chain (or empty bin), a link to
/// the next member, or the tombstone of a removed (found) point.
#[derive(Clone, Copy, Debug, PartialEq, Eq, Structural)]
pub enum Link {
    Nil,
    To(usize),
    Removed,
}

/// The one contract error: an input whose shape is not three-dimensional.
#[derive(Clone, Copy, Debug, PartialEq, Eq, Structural)]
pub enum BinError {
    InvalidDimension,
}

/// Abstract state of an index: the original points, the bin widths, the
/// sorted-to-original permutation, and the accumulated found points (as
/// sorted indices, in discovery order). Everything else — origin, grid
/// shape, bin keys, chain contents — is a function of these.
pub struct BinModel {
    pub points: Seq<Point3>,
    pub widths: Point3,
    pub perm: Seq<usize>,
    pub found: Seq<usize>,
}

/// The point at sorted position `s`.
pub open spec fn sorted_at(m: BinModel, s: int) -> Point3 {
    m.points[m.perm[s] as int]
}

/// Flattened (row-major) bin key of original point `i`. Kept opaque: the
/// chain proofs treat keys as abstract bin labels, and only the search's
/// box arithmetic looks inside.
#[verifier::opaque]
pub open spec fn orig_key(pts: Seq<Point3>, w: Point3, i: int) -> int {
    flat_key(
        bin_x(pts[i], origin_of(pts), w),
        bin_y(pts[i], origin_of(pts), w),
        bin_z(pts[i], origin_of(pts), w),
        shape_y(pts, w),
        shape_z(pts, w),
    )
}

/// Flattened bin key of the point at sorted position `s`.
pub open spec fn mkey(m: BinModel, s: int) -> int {
    orig_key(m.points, m.widths, m.perm[s] as int)
}

/// Per-axis bin coordinate of the point at sorted position `s`.
pub open spec fn sbin_x(m: BinModel, s: int) -> int {
    bin_x(sorted_at(m, s), origin_of(m.points), m.widths)
}

pub open spec fn sbin_y(m: BinModel, s: int) -> int {
    bin_y(sorted_at(m, s), origin_of(m.points), m.widths)
}

pub open spec fn sbin_z(m: BinModel, s: int) -> int {
    bin_z(sorted_at(m, s), origin_of(m.points), m.widths)
}

/// The search visits candidate bins in lexicographic order; this says the
/// bin of the point at sorted position `s` comes strictly before the given
/// bin coordinate.
pub open spec fn before_bin(m: BinModel, s: int, bx: int, by: int, bz: int) -> bool {
    sbin_x(m, s) < bx || (sbin_x(m, s) == bx && (sbin_y(m, s) < by || (sbin_y(m, s) == by
        && sbin_z(m, s) < bz)))
}

/// Every point's per-axis bin coordinate lies within the grid shape. Kept
/// opaque for the same reason as `orig_key`.
#[verifier::opaque]
pub open spec fn bins_in_range(m: BinModel, sx: int, sy: int, sz: int) -> bool {
    forall|i: int|
        0 <= i < m.points.len() ==> (0 <= bin_x(#[trigger] m.points[i], origin_of(m.points),
            m.widths) < sx && 0 <= bin_y(m.points[i], origin_of(m.points), m.widths) < sy && 0
            <= bin_z(m.points[i], origin_of(m.points), m.widths) < sz)
}

/// The order in which a search reports its matches: candidate bins by
/// ascending flattened key, and within one bin in chain order, which is
/// descending sorted index.
pub open spec fn search_lt(m: BinModel, s1: int, s2: int) -> bool {
    mkey(m, s1) < mkey(m, s2) || (mkey(m, s1) == mkey(m, s2) && s1 > s2)
}

/// Model-level invariant: bounded non-empty points, positive bounded
/// widths, a stable bin-key-sorted bijection, and a duplicate-free found
/// list of sorted indices.
pub open spec fn inv(m: BinModel) -> bool {
    let n = m.points.len() as int;
    &&& n >= 1
    &&& forall|i: int| 0 <= i < n ==> pt_bounded(#[trigger] m.points[i])
    &&& 1 <= m.widths.x <= COORD_LIMIT
    &&& 1 <= m.widths.y <= COORD_LIMIT
    &&& 1 <= m.widths.z <= COORD_LIMIT
    &&& m.perm.len() == n
    &&& forall|s: int| 0 <= s < n ==> (#[trigger] m.perm[s]) < n
    &&& forall|s1: int, s2: int|
        0 <= s1 < n && 0 <= s2 < n && s1 != s2 ==> m.perm[s1] != m.perm[s2]
    &&& forall|s1: int, s2: int|
        0 <= s1 < s2 < n ==> (mkey(m, s1) < mkey(m, s2) || (mkey(m, s1) == mkey(m, s2)
            && m.perm[s1] < m.perm[s2]))
    &&& forall|k: int| 0 <= k < m.found.len() ==> (#[trigger] m.found[k]) < n
    &&& forall|k1: int, k2: int|
        0 <= k1 < k2 < m.found.len() ==> m.found[k1] != m.found[k2]
}

/// The link that chain `c` holds at traversal position `k`: a link to the
/// member there, or the end marker past the last member.
pub open spec fn link_at(c: Seq<int>, k: int) -> Link {
    if 0 <= k < c.len() {
        Link::To(c[k] as usize)
    } else {
        Link::Nil
    }
}

/// Chain `c` is exactly what the arrays spell out from head `h`: the head
/// links to its first member, each member links to the next, and members
/// strictly decrease (each point was prepended over earlier sorted indices),
/// which makes chains acyclic and duplicate-free.
pub open spec fn chain_linked(c: Seq<int>, h: Link, next: Seq<Link>) -> bool {
    &&& h == link_at(c, 0)
    &&& forall|k: int| 0 <= k < c.len() ==> 0 <= #[trigger] c[k] < next.len()
    &&& forall|k: int| 0 <= k < c.len() ==> #[trigger] next[c[k]] == link_at(c, k + 1)
    &&& forall|k: int| #![trigger c[k], c[k - 1]] 0 < k < c.len() ==> c[k] < c[k - 1]
}

/// Every bin's ghost chain matches the arrays, and holds only members of
/// that bin.
pub open spec fn lists_wf(m: BinModel, ch: Seq<Seq<int>>, head: Seq<Link>, next: Seq<Link>) -> bool {
    &&& ch.len() == head.len()
    &&& forall|b: int| 0 <= b < ch.len() ==> chain_linked(#[trigger] ch[b], head[b], next)
    &&& forall|b: int, k: int|
        0 <= b < ch.len() && 0 <= k < ch[b].len() ==> mkey(m, #[trigger] ch[b][k]) == b
}

/// A bucketed 3D spatial index over a fixed point set. Queries claim the
/// points they match; `reset` restores the freshly built state.
pub struct PointBin3D {
    original_points: Vec<Point3>,
    points: Vec<Point3>,
    bin_widths: Point3,
    origin: Point3,
    original_indices: Vec<usize>,
    sx: usize,
    sy: usize,
    sz: usize,
    first_member: Vec<Link>,
    next_member: Vec<Link>,
    snap_first: Vec<Link>,
    snap_next: Vec<Link>,
    found: Vec<usize>,
    chains: Ghost<Seq<Seq<int>>>,
    init_chains: Ghost<Seq<Seq<int>>>,
}

impl View for PointBin3D {
    type V = BinModel;

    closed spec fn view(&self) -> BinModel {
        BinModel {
            points: self.original_points@,
            widths: self.bin_widths,
            perm: self.original_indices@,
            found: self.found@,
        }
    }
}

impl PointBin3D {
    /// Representation invariant over the concrete arrays and ghost chains.
    pub closed spec fn abs_wf(&self) -> bool {
        let n = self.original_points@.len() as int;
        let m = self@;
        let vol = (self.sx as int) * (self.sy as int) * (self.sz as int);
        &&& self.points@.len() == n
        &&& self.original_indices@.len() == n
        &&& self.next_member@.len() == n
        &&& self.snap_next@.len() == n
        &&& self.first_member@.len() == vol
        &&& self.snap_first@.len() == vol
        &&& self.chains@.len() == vol
        &&& self.init_chains@.len() == vol
        &&& self.origin == origin_of(m.points)
        &&& pt_bounded(self.origin)
        &&& self.sx as int == shape_x(m.points, m.widths)
        &&& self.sy as int == shape_y(m.points, m.widths)
        &&& self.sz as int == shape_z(m.points, m.widths)
        &&& self.sx as int <= 2 * (COORD_LIMIT as int) + 1
        &&& self.sy as int <= 2 * (COORD_LIMIT as int) + 1
        &&& self.sz as int <= 2 * (COORD_LIMIT as int) + 1
        &&& forall|s: int| 0 <= s < n ==> #[trigger] self.points@[s] == sorted_at(m, s)
        &&& forall|s: int| 0 <= s < n ==> 0 <= #[trigger] mkey(m, s) < vol
        &&& bins_in_range(m, self.sx as int, self.sy as int, self.sz as int)
        &&& lists_wf(m, self.chains@, self.first_member@, self.next_member@)
        &&& forall|s: int|
            0 <= s < n && !m.found.contains(s as usize) ==> self.chains@[mkey(m, s)].contains(s)
        &&& forall|b: int, k: int|
            0 <= b < vol && 0 <= k < self.chains@[b].len() ==> !m.found.contains(
                (#[trigger] self.chains@[b][k]) as usize)
        &&& forall|s: int|
            0 <= s < n ==> (self.next_member@[s] == Link::Removed <==> m.found.contains(
                s as usize))
        &&& lists_wf(m, self.init_chains@, self.snap_first@, self.snap_next@)
        &&& forall|s: int| 0 <= s < n ==> self.init_chains@[#[trigger] mkey(m, s)].contains(s)
        &&& forall|s: int| 0 <= s < n ==> #[trigger] self.snap_next@[s] != Link::Removed
    }

    /// Well-formedness: the abstract state satisfies the model invariant and
    /// the concrete representation matches it.
    pub open spec fn wf(&self) -> bool {
        &&& inv(self@)
        &&& self.abs_wf()
    }

    /// Builds the index: derives the grid origin and shape, computes every
    /// point's flattened bin key, orders the points stably by key, and
    /// chains each bin's points by prepending in sorted order; finally a
    /// snapshot of the chains is kept for `reset`.
    ///
    /// Rejects inputs whose shape is not three-dimensional; accepts exactly
    /// the well-shaped ones. The returned index is well formed, holds the
    /// given points in input order, and has found nothing yet.
    #[verifier::rlimit(60)]
    pub fn new(points: &Vec<Vec<i64>>, bin_widths: &Vec<i64>) -> (res: Result<PointBin3D, BinError>)
        requires
            points@.len() >= 1,
            forall|i: int, j: int|
                0 <= i < points@.len() && 0 <= j < points@[i]@.len() ==> -COORD_LIMIT <= #[trigger] points@[i]@[j] <= COORD_LIMIT,
            bin_widths@.len() == 3 ==> (1 <= bin_widths@[0] <= COORD_LIMIT && 1 <= bin_widths@[1]
                <= COORD_LIMIT && 1 <= bin_widths@[2] <= COORD_LIMIT),
            dims_ok(points@, bin_widths@) ==> volume_of(pts_of(points@), w_of(bin_widths@))
                <= usize::MAX as int,
        ensures
            res is Err <==> !dims_ok(points@, bin_widths@),
            res is Err ==> res == Err::<PointBin3D, BinError>(BinError::InvalidDimension),
            res matches Ok(pb) ==> pb.wf() && pb@.points == pts_of(points@) && pb@.widths == w_of(
                bin_widths@) && pb@.found == Seq::<usize>::empty(),
    {
        if bin_widths.len() != 3 {
            return Err(BinError::InvalidDimension);
        }
        let n = points.len();
        let mut i: usize = 0;
        while i < n
            invariant
                0 <= i <= n,
                n == points@.len(),
                forall|t: int| 0 <= t < i ==> (#[trigger] points@[t])@.len() == 3,
            decreases n - i,
        {
            if points[i].len() != 3 {
                return Err(BinError::InvalidDimension);
            }
            i = i + 1;
        }
        assert(dims_ok(points@, bin_widths@));
        let w = Point3 { x: bin_widths[0], y: bin_widths[1], z: bin_widths[2] };
        let mut opts: Vec<Point3> = Vec::new();
        let mut i: usize = 0;
        while i < n
            invariant
                0 <= i <= n,
                n == points@.len(),
                dims_ok(points@, bin_widths@),
                opts@.len() == i,
                forall|t: int| 0 <= t < i ==> #[trigger] opts@[t] == pts_of(points@)[t],
            decreases n - i,
        {
            let row = &points[i];
            opts.push(Point3 { x: row[0], y: row[1], z: row[2] });
            i = i + 1;
        }
        proof {
            assert(opts@ =~= pts_of(points@));
        }
        let ghost pts = opts@;
        proof {
            assert forall|t: int| 0 <= t < n implies pt_bounded(#[trigger] pts[t]) by {
                assert(points@[t]@.len() == 3);
                assert(pts[t].x == points@[t]@[0]);
                assert(pts[t].y == points@[t]@[1]);
                assert(pts[t].z == points@[t]@[2]);
            }
        }
        let origin = compute_origin(&opts);
        proof {
            lemma_seq_min_props(xs(pts));
            lemma_seq_min_props(ys(pts));
            lemma_seq_min_props(zs(pts));
            let wx = choose|t: int| 0 <= t < xs(pts).len() && seq_min(xs(pts)) == xs(pts)[t];
            let wy = choose|t: int| 0 <= t < ys(pts).len() && seq_min(ys(pts)) == ys(pts)[t];
            let wz = choose|t: int| 0 <= t < zs(pts).len() && seq_min(zs(pts)) == zs(pts)[t];
            assert(pt_bounded(pts[wx]) && pt_bounded(pts[wy]) && pt_bounded(pts[wz]));
            assert(origin.x as int == seq_min(xs(pts)));
            assert(origin.y as int == seq_min(ys(pts)));
            assert(origin.z as int == seq_min(zs(pts)));
            assert forall|t: int|
                0 <= t < n implies origin.x <= (#[trigger] pts[t]).x && origin.y <= pts[t].y
                && origin.z <= pts[t].z by {
                assert(xs(pts)[t] == pts[t].x);
                assert(ys(pts)[t] == pts[t].y);
                assert(zs(pts)[t] == pts[t].z);
            }
        }
        let mut bxv: Vec<i64> = Vec::new();
        let mut byv: Vec<i64> = Vec::new();
        let mut bzv: Vec<i64> = Vec::new();
        let mut mbx: i64 = 0;
        let mut mby: i64 = 0;
        let mut mbz: i64 = 0;
        let mut i: usize = 0;
        while i < n
            invariant
                0 <= i <= n,
                n == pts.len(),
                opts@ == pts,
                forall|t: int| 0 <= t < n ==> pt_bounded(#[trigger] pts[t]),
                pt_bounded(origin),
                forall|t: int|
                    0 <= t < n ==> origin.x <= (#[trigger] pts[t]).x && origin.y <= pts[t].y
                        && origin.z <= pts[t].z,
                1 <= w.x <= COORD_LIMIT,
                1 <= w.y <= COORD_LIMIT,
                1 <= w.z <= COORD_LIMIT,
                bxv@.len() == i && byv@.len() == i && bzv@.len() == i,
                forall|t: int|
                    0 <= t < i ==> (#[trigger] bxv@[t]) as int == bin_x(pts[t], origin, w),
                forall|t: int|
                    0 <= t < i ==> (#[trigger] byv@[t]) as int == bin_y(pts[t], origin, w),
                forall|t: int|
                    0 <= t < i ==> (#[trigger] bzv@[t]) as int == bin_z(pts[t], origin, w),
                forall|t: int| 0 <= t < i ==> 0 <= #[trigger] bxv@[t] <= 2 * COORD_LIMIT,
                forall|t: int| 0 <= t < i ==> 0 <= #[trigger] byv@[t] <= 2 * COORD_LIMIT,
                forall|t: int| 0 <= t < i ==> 0 <= #[trigger] bzv@[t] <= 2 * COORD_LIMIT,
                i >= 1 ==> mbx as int == seq_max(bxs(pts, origin, w).take(i as int)),
                i >= 1 ==> mby as int == seq_max(bys(pts, origin, w).take(i as int)),
                i >= 1 ==> mbz as int == seq_max(bzs(pts, origin, w).take(i as int)),
                0 <= mbx <= 2 * COORD_LIMIT,
                0 <= mby <= 2 * COORD_LIMIT,
                0 <= mbz <= 2 * COORD_LIMIT,
                i == 0 ==> mbx == 0 && mby == 0 && mbz == 0,
            decreases n - i,
        {
            let p = opts[i];
            let dx = p.x - origin.x;
            let dy = p.y - origin.y;
            let dz = p.z - origin.z;
            let bx = floor_div(dx, w.x);
            let by = floor_div(dy, w.y);
            let bz = floor_div(dz, w.z);
            proof {
                lemma_div_basics_5(dx as int, w.x as int);
                lemma_div_basics_5(dy as int, w.y as int);
                lemma_div_basics_5(dz as int, w.z as int);
                assert(bx as int == bin_x(pts[i as int], origin, w));
                assert(by as int == bin_y(pts[i as int], origin, w));
                assert(bz as int == bin_z(pts[i as int], origin, w));
                if i >= 1 {
                    assert(bxs(pts, origin, w).take(i + 1) =~= bxs(pts, origin, w).take(
                        i as int).push(bin_x(pts[i as int], origin, w)));
                    assert(bys(pts, origin, w).take(i + 1) =~= bys(pts, origin, w).take(
                        i as int).push(bin_y(pts[i as int], origin, w)));
                    assert(bzs(pts, origin, w).take(i + 1) =~= bzs(pts, origin, w).take(
                        i as int).push(bin_z(pts[i as int], origin, w)));
                    lemma_seq_max_push(bxs(pts, origin, w).take(i as int), bin_x(
                        pts[i as int], origin, w));
                    lemma_seq_max_push(bys(pts, origin, w).take(i as int), bin_y(
                        pts[i as int], origin, w));
                    lemma_seq_max_push(bzs(pts, origin, w).take(i as int), bin_z(
                        pts[i as int], origin, w));
                } else {
                    assert(bxs(pts, origin, w).take(1)
                        =~= Seq::<int>::empty().push(bin_x(pts[0], origin, w)));
                    assert(bys(pts, origin, w).take(1)
                        =~= Seq::<int>::empty().push(bin_y(pts[0], origin, w)));
                    assert(bzs(pts, origin, w).take(1)
                        =~= Seq::<int>::empty().push(bin_z(pts[0], origin, w)));
                }
            }
            bxv.push(bx);
            byv.push(by);
            bzv.push(bz);
            if bx > mbx {
                mbx = bx;
            }
            if by > mby {
                mby = by;
            }
            if bz > mbz {
                mbz = bz;
            }
            i = i + 1;
        }
        proof {
            assert(bxs(pts, origin, w).take(n as int) =~= bxs(pts, origin, w));
            assert(bys(pts, origin, w).take(n as int) =~= bys(pts, origin, w));
            assert(bzs(pts, origin, w).take(n as int) =~= bzs(pts, origin, w));
        }
        let sx64: i64 = mbx + 1;
        let sy64: i64 = mby + 1;
        let sz64: i64 = mbz + 1;
        proof {
            assert(sx64 as int == shape_x(pts, w));
            assert(sy64 as int == shape_y(pts, w));
            assert(sz64 as int == shape_z(pts, w));
            assert(volume_of(pts, w) <= usize::MAX as int);
            assert((sx64 as int) <= (sx64 as int) * (sy64 as int) * (sz64 as int)
                && (sy64 as int) <= (sx64 as int) * (sy64 as int) * (sz64 as int)
                && (sz64 as int) <= (sx64 as int) * (sy64 as int) * (sz64 as int)
                && (sx64 as int) * (sy64 as int) <= (sx64 as int) * (sy64 as int) * (sz64 as int)
                && (sy64 as int) * (sz64 as int) <= (sx64 as int) * (sy64 as int) * (sz64 as int))
                by (nonlinear_arith)
                requires
                    1 <= sx64 as int,
                    1 <= sy64 as int,
                    1 <= sz64 as int,
            ;
        }
        let sx = sx64 as usize;
        let sy = sy64 as usize;
        let sz = sz64 as usize;
        proof {
            assert((sx as int) * ((sy as int) * (sz as int)) == (sx as int) * (sy as int) * (
            sz as int)) by (nonlinear_arith);
            lemma_seq_max_props(bxs(pts, origin, w));
            lemma_seq_max_props(bys(pts, origin, w));
            lemma_seq_max_props(bzs(pts, origin, w));
            assert forall|t: int| 0 <= t < n implies 0 <= #[trigger] bxv@[t] < sx64 by {
                assert(bxs(pts, origin, w)[t] == bin_x(pts[t], origin, w));
            }
            assert forall|t: int| 0 <= t < n implies 0 <= #[trigger] byv@[t] < sy64 by {
                assert(bys(pts, origin, w)[t] == bin_y(pts[t], origin, w));
            }
            assert forall|t: int| 0 <= t < n implies 0 <= #[trigger] bzv@[t] < sz64 by {
                assert(bzs(pts, origin, w)[t] == bin_z(pts[t], origin, w));
            }
        }
        let sysz: usize = sy * sz;
        let vol: usize = sx * sysz;
        let mut keys: Vec<usize> = Vec::new();
        let mut i: usize = 0;
        while i < n
            invariant
                0 <= i <= n,
                n == pts.len(),
                keys@.len() == i,
                bxv@.len() == n && byv@.len() == n && bzv@.len() == n,
                forall|t: int|
                    0 <= t < n ==> (#[trigger] bxv@[t]) as int == bin_x(pts[t], origin, w),
                forall|t: int|
                    0 <= t < n ==> (#[trigger] byv@[t]) as int == bin_y(pts[t], origin, w),
                forall|t: int|
                    0 <= t < n ==> (#[trigger] bzv@[t]) as int == bin_z(pts[t], origin, w),
                forall|t: int| 0 <= t < n ==> 0 <= #[trigger] bxv@[t] < sx64,
                forall|t: int| 0 <= t < n ==> 0 <= #[trigger] byv@[t] < sy64,
                forall|t: int| 0 <= t < n ==> 0 <= #[trigger] bzv@[t] < sz64,
                1 <= sx64 && 1 <= sy64 && 1 <= sz64,
                sx == sx64 as usize && sy == sy64 as usize && sz == sz64 as usize,
                sx as int == sx64 as int && sy as int == sy64 as int && sz as int == sz64 as int,
                sysz as int == (sy as int) * (sz as int),
                vol as int == (sx as int) * (sy as int) * (sz as int),
                origin == origin_of(pts),
                sy as int == shape_y(pts, w) && sz as int == shape_z(pts, w),
                forall|t: int|
                    0 <= t < i ==> (#[trigger] keys@[t]) as int == orig_key(pts, w, t),
                forall|t: int| 0 <= t < i ==> ((#[trigger] keys@[t]) as int) < vol as int,
            decreases n - i,
        {
            let bxi = bxv[i];
            let byi = byv[i];
            let bzi = bzv[i];
            proof {
                let bi = bxi as int;
                let bj = byi as int;
                let bk = bzi as int;
                let sxi = sx as int;
                let syi = sy as int;
                let szi = sz as int;
                lemma_flat_key_range(bi, bj, bk, sxi, syi, szi);
                assert(bi * (syi * szi) == bi * syi * szi) by (nonlinear_arith);
                assert(bi * (syi * szi) >= 0 && bj * szi >= 0) by (nonlinear_arith)
                    requires
                        0 <= bi && 0 <= bj && 0 <= syi && 0 <= szi,
                ;
            }
            let k: usize = (bxi as usize) * sysz + (byi as usize) * sz + (bzi as usize);
            proof {
                reveal(orig_key);
                assert(k as int == orig_key(pts, w, i as int));
            }
            keys.push(k);
            i = i + 1;
        }
        let perm = stable_order(&keys);
        let mut spts: Vec<Point3> = Vec::new();
        let mut s: usize = 0;
        while s < n
            invariant
                0 <= s <= n,
                n == pts.len(),
                opts@ == pts,
                perm@.len() == n,
                forall|t: int| 0 <= t < n ==> (#[trigger] perm@[t]) < n,
                spts@.len() == s,
                forall|t: int| 0 <= t < s ==> #[trigger] spts@[t] == pts[perm@[t] as int],
            decreases n - s,
        {
            let po = perm[s];
            spts.push(opts[po]);
            s = s + 1;
        }
        let (first, next, gch) = build_lists(&keys, &perm, vol);
        let ghost chains = gch@;
        let snap_first = copy_links(&first);
        let snap_next = copy_links(&next);
        let result = PointBin3D {
            original_points: opts,
            points: spts,
            bin_widths: w,
            origin,
            original_indices: perm,
            sx,
            sy,
            sz,
            first_member: first,
            next_member: next,
            snap_first,
            snap_next,
            found: Vec::new(),
            chains: Ghost(chains),
            init_chains: Ghost(chains),
        };
        proof {
            let m = result@;
            assert(m.points == pts);
            assert forall|t: int| 0 <= t < n implies #[trigger] mkey(m, t) == keys@[
                m.perm[t] as int] as int by {
                assert(keys@[m.perm[t] as int] as int == orig_key(pts, w, m.perm[t] as int));
            }
            assert(inv(m));
            assert(pt_bounded(result.origin));
            assert(bins_in_range(m, sx as int, sy as int, sz as int)) by {
                reveal(bins_in_range);
                assert forall|t: int|
                    0 <= t < n implies (0 <= bin_x(#[trigger] m.points[t], origin_of(
                    m.points), w) < sx as int && 0 <= bin_y(m.points[t], origin_of(m.points), w)
                    < sy as int && 0 <= bin_z(m.points[t], origin_of(m.points), w)
                    < sz as int) by {
                    assert(bxv@[t] as int == bin_x(pts[t], origin, w));
                    assert(byv@[t] as int == bin_y(pts[t], origin, w));
                    assert(bzv@[t] as int == bin_z(pts[t], origin, w));
                }
            }
            assert(lists_wf(m, chains, result.first_member@, result.next_member@));
            assert(lists_wf(m, chains, result.snap_first@, result.snap_next@));
            assert(result.abs_wf());
        }
        Ok(result)
    }

    /// Number of points found by all searches since the last reset.
    pub fn found_count(&self) -> (c: usize)
        ensures
            c == self@.found.len(),
    {
        self.found.len()
    }

    /// The original point set, in input order.
    pub fn original_points(&self) -> (r: &Vec<Point3>)
        ensures
            r@ == self@.points,
    {
        &self.original_points
    }

    /// The grid origin: the column-wise minimum of the points.
    pub fn origin(&self) -> (o: Point3)
        requires
            self.wf(),
        ensures
            o == origin_of(self@.points),
    {
        self.origin
    }

    /// The grid shape: per-axis bin counts.
    pub fn bin_shape(&self) -> (r: Vec<i64>)
        requires
            self.wf(),
        ensures
            r@.len() == 3,
            r@[0] == shape_x(self@.points, self@.widths),
            r@[1] == shape_y(self@.points, self@.widths),
            r@[2] == shape_z(self@.points, self@.widths),
    {
        let mut r: Vec<i64> = Vec::new();
        r.push(self.sx as i64);
        r.push(self.sy as i64);
        r.push(self.sz as i64);
        r
    }

    /// Original indices of the found points, in discovery order: the found
    /// sorted indices mapped through the permutation. Entries are valid,
    /// pairwise distinct original indices.
    pub fn found_indices(&self) -> (r: Vec<usize>)
        requires
            self.wf(),
        ensures
            r@.len() == self@.found.len(),
            forall|k: int|
                0 <= k < r@.len() ==> #[trigger] r@[k] == self@.perm[self@.found[k] as int],
            forall|k: int| 0 <= k < r@.len() ==> #[trigger] r@[k] < self@.points.len(),
            forall|k1: int, k2: int| 0 <= k1 < k2 < r@.len() ==> r@[k1] != r@[k2],
    {
        let mut r: Vec<usize> = Vec::new();
        let mut k: usize = 0;
        while k < self.found.len()
            invariant
                self.wf(),
                0 <= k <= self@.found.len(),
                r@.len() == k,
                forall|j: int|
                    0 <= j < k ==> #[trigger] r@[j] == self@.perm[self@.found[j] as int],
            decreases self@.found.len() - k,
        {
            let s = self.found[k];
            r.push(self.original_indices[s]);
            k = k + 1;
        }
        proof {
            assert forall|k1: int, k2: int| 0 <= k1 < k2 < r@.len() implies r@[k1] != r@[k2] by {
                assert(self@.found[k1] != self@.found[k2]);
            }
        }
        r
    }

    /// Removes from one bin's chain every member within the search ball,
    /// appending each to the accumulator, and re-establishes the index
    /// invariant around the bare-array walk.
    #[verifier::rlimit(60)]
    fn search_bin(&mut self, bkey: usize, q: Point3, radius: i64)
        requires
            old(self).wf(),
            pt_bounded(q),
            0 <= radius <= COORD_LIMIT,
            (bkey as int) < volume_of(old(self)@.points, old(self)@.widths),
        ensures
            final(self).wf(),
            final(self)@.points == old(self)@.points,
            final(self)@.widths == old(self)@.widths,
            final(self)@.perm == old(self)@.perm,
            final(self)@.found.len() >= old(self)@.found.len(),
            final(self)@.found.take(old(self)@.found.len() as int) == old(self)@.found,
            forall|s: int|
                0 <= s < old(self)@.points.len() ==> (final(self)@.found.contains(s as usize)
                    <==> old(self)@.found.contains(s as usize) || (mkey(old(self)@, s)
                    == bkey as int && dist2(sorted_at(old(self)@, s), q) <= (radius as int) * (
                    radius as int))),
            forall|k: int|
                old(self)@.found.len() <= k < final(self)@.found.len() ==> mkey(old(self)@, (
                #[trigger] final(self)@.found[k]) as int) == bkey as int,
            forall|k1: int, k2: int|
                old(self)@.found.len() <= k1 < k2 < final(self)@.found.len() ==> final(
                self)@.found[k1] > final(self)@.found[k2],
    {
        let ghost m0 = old(self)@;
        let ghost n = m0.points.len() as int;
        let nn = self.points.len();
        proof {
            assert(nn == n);
            assert(n <= usize::MAX as int);
            assert(self.chains@.len() == volume_of(m0.points, m0.widths));
        }
        let gch = walk_bin(
            &mut self.first_member,
            &mut self.next_member,
            &mut self.found,
            &self.points,
            bkey,
            q,
            radius,
            Ghost(m0),
            Ghost(self.chains@),
        );
        self.chains = gch;
        proof {
            let m1 = self@;
            assert forall|t: int|
                0 <= t < n implies #[trigger] mkey(m1, t) == mkey(m0, t) && sorted_at(m1, t)
                == sorted_at(m0, t) by {
                assert(m1.points == m0.points && m1.widths == m0.widths && m1.perm == m0.perm);
            }
            lemma_bins_in_range_stable(m0, m1, self.sx as int, self.sy as int, self.sz as int);
            assert(lists_wf(m1, self.chains@, self.first_member@, self.next_member@)) by {
                assert forall|b: int, k: int|
                    0 <= b < self.chains@.len() && 0 <= k < self.chains@[b].len() implies mkey(
                    m1, #[trigger] self.chains@[b][k]) == b by {
                    assert(mkey(m0, self.chains@[b][k]) == b);
                }
            }
            assert(lists_wf(m1, self.init_chains@, self.snap_first@, self.snap_next@)) by {
                assert(lists_wf(m0, self.init_chains@, self.snap_first@, self.snap_next@));
                assert forall|b: int, k: int|
                    0 <= b < self.init_chains@.len() && 0 <= k < self.init_chains@[b].len()
                    implies mkey(m1, #[trigger] self.init_chains@[b][k]) == b by {
                    assert(mkey(m0, self.init_chains@[b][k]) == b);
                }
            }
            assert(self.abs_wf());
            assert(inv(m1));
            assert forall|s: int|
                0 <= s < n implies (m1.found.contains(s as usize) <==> m0.found.contains(
                s as usize) || (mkey(m0, s) == bkey as int && dist2(sorted_at(m0, s), q) <= (
                radius as int) * (radius as int))) by {
                assert(m1.found == self.found@);
            }
        }
    }

    /// Answers one query: finds every still-linked point within `radius`
    /// of `query` (boundary inclusive), removes each from its chain and
    /// appends it to the accumulator. Candidate bins are the clamped box of
    /// the query ball, visited in ascending flattened-key order; matches
    /// arrive in that bin order, within a bin in chain order.
    #[verifier::rlimit(100)]
    pub fn radius_search(&mut self, query: &Vec<i64>, radius: i64) -> (res: Result<
        (),
        BinError,
    >)
        requires
            old(self).wf(),
            forall|j: int|
                0 <= j < query@.len() ==> -COORD_LIMIT <= #[trigger] query@[j] <= COORD_LIMIT,
            0 <= radius <= COORD_LIMIT,
        ensures
            final(self).wf(),
            res is Err <==> query@.len() != 3,
            res is Err ==> res == Err::<(), BinError>(BinError::InvalidDimension) && *final(
                self) == *old(self),
            query@.len() == 3 ==> ({
                let q = w_of(query@);
                let m0 = old(self)@;
                let m1 = final(self)@;
                &&& m1.points == m0.points
                &&& m1.widths == m0.widths
                &&& m1.perm == m0.perm
                &&& m1.found.len() >= m0.found.len()
                &&& m1.found.take(m0.found.len() as int) == m0.found
                &&& forall|s: int|
                    0 <= s < m0.points.len() ==> (m1.found.contains(s as usize)
                        <==> m0.found.contains(s as usize) || dist2(sorted_at(m0, s), q) <= (
                        radius as int) * (radius as int))
                &&& forall|k1: int, k2: int|
                    m0.found.len() <= k1 < k2 < m1.found.len() ==> search_lt(m0, m1.found[
                        k1] as int, m1.found[k2] as int)
            }),
    {
        if query.len() != 3 {
            return Err(BinError::InvalidDimension);
        }
        let ghost m0 = old(self)@;
        let ghost n = m0.points.len() as int;
        let ghost rq = (radius as int) * (radius as int);
        let q = Point3 { x: query[0], y: query[1], z: query[2] };
        let o = self.origin;
        let w = self.bin_widths;
        let capv = self.first_member.len();
        let nv = self.points.len();
        proof {
            assert(-COORD_LIMIT <= query@[0] <= COORD_LIMIT);
            assert(-COORD_LIMIT <= query@[1] <= COORD_LIMIT);
            assert(-COORD_LIMIT <= query@[2] <= COORD_LIMIT);
            assert(pt_bounded(q));
            assert(pt_bounded(o));
            assert(m0.widths == w);
            assert(1 <= w.x <= COORD_LIMIT && 1 <= w.y <= COORD_LIMIT && 1 <= w.z
                <= COORD_LIMIT);
            assert(nv as int == n);
        }
        let lo_rx = floor_div(q.x - radius - o.x, w.x);
        let hi_rx = floor_div(q.x + radius - o.x, w.x);
        let lo_ry = floor_div(q.y - radius - o.y, w.y);
        let hi_ry = floor_div(q.y + radius - o.y, w.y);
        let lo_rz = floor_div(q.z - radius - o.z, w.z);
        let hi_rz = floor_div(q.z + radius - o.z, w.z);
        let sx64 = self.sx as i64;
        let sy64 = self.sy as i64;
        let sz64 = self.sz as i64;
        let lx = if lo_rx > 0 { lo_rx } else { 0 };
        let hx = if hi_rx < sx64 - 1 { hi_rx } else { sx64 - 1 };
        let ly = if lo_ry > 0 { lo_ry } else { 0 };
        let hy = if hi_ry < sy64 - 1 { hi_ry } else { sy64 - 1 };
        let lz = if lo_rz > 0 { lo_rz } else { 0 };
        let hz = if hi_rz < sz64 - 1 { hi_rz } else { sz64 - 1 };
        let ghost sxi = self.sx as int;
        let ghost syi = self.sy as int;
        let ghost szi = self.sz as int;
        let ghost vol = sxi * syi * szi;
        proof {
            assert(q == w_of(query@));
            assert forall|s: int|
                0 <= s < n && dist2(sorted_at(m0, s), q) <= rq implies (lx as int <= sbin_x(
                m0, s) <= hx as int && ly as int <= sbin_y(m0, s) <= hy as int && lz as int
                <= sbin_z(m0, s) <= hz as int) by {
                assert(0 <= m0.perm[s] < n);
                assert(pt_bounded(m0.points[m0.perm[s] as int]));
                lemma_ball_in_box(sorted_at(m0, s), q, o, w, radius as int);
                reveal(bins_in_range);
                assert(0 <= bin_x(m0.points[m0.perm[s] as int], origin_of(m0.points), m0.widths)
                    < sxi);
            }
            assert forall|s: int|
                0 <= s < n implies #[trigger] mkey(m0, s) == flat_key(sbin_x(m0, s), sbin_y(
                m0, s), sbin_z(m0, s), syi, szi) by {
                reveal(orig_key);
            }
        }
        if !(lx <= hx && ly <= hy && lz <= hz) {
            proof {
                assert forall|s: int|
                    0 <= s < n implies (self@.found.contains(s as usize)
                    <==> m0.found.contains(s as usize) || dist2(sorted_at(m0, s), q) <= rq) by {
                    if dist2(sorted_at(m0, s), q) <= rq {
                        assert(lx as int <= sbin_x(m0, s) <= hx as int);
                    }
                }
                assert(self@.found.take(m0.found.len() as int) =~= m0.found);
            }
            return Ok(());
        }
        let lxu = lx as usize;
        let hxu = hx as usize;
        let lyu = ly as usize;
        let hyu = hy as usize;
        let lzu = lz as usize;
        let hzu = hz as usize;
        let szu = self.sz;
        proof {
            assert(syi * szi <= vol && sxi * (syi * szi) == vol && syi <= vol && szi <= vol)
                by (nonlinear_arith)
                requires
                    1 <= sxi && 1 <= syi && 1 <= szi && vol == sxi * syi * szi,
            ;
            assert(capv as int == vol);
            assert(vol <= usize::MAX as int);
        }
        let syszu = self.sy * self.sz;
        let mut bxu = lxu;
        while bxu <= hxu
            invariant
                self.wf(),
                self@.points == m0.points,
                self@.widths == m0.widths,
                self@.perm == m0.perm,
                n == m0.points.len() as int,
                rq == (radius as int) * (radius as int),
                pt_bounded(q),
                0 <= radius <= COORD_LIMIT,
                sxi == self.sx as int && syi == self.sy as int && szi == self.sz as int,
                vol == sxi * syi * szi,
                syszu as int == syi * szi,
                szu as int == szi,
                syi * szi <= vol,
                volume_of(m0.points, m0.widths) == vol,
                vol <= usize::MAX as int,
                n <= usize::MAX as int,
                0 <= lxu as int <= hxu as int && (hxu as int) < sxi,
                0 <= lyu as int <= hyu as int && (hyu as int) < syi,
                0 <= lzu as int <= hzu as int && (hzu as int) < szi,
                lxu as int <= bxu as int <= hxu as int + 1,
                forall|s: int| #![trigger sorted_at(m0, s)]
                    0 <= s < n && dist2(sorted_at(m0, s), q) <= rq ==> (lxu as int <= sbin_x(
                        m0, s) <= hxu as int && lyu as int <= sbin_y(m0, s) <= hyu as int
                        && lzu as int <= sbin_z(m0, s) <= hzu as int),
                forall|s: int|
                    0 <= s < n ==> #[trigger] mkey(m0, s) == flat_key(sbin_x(m0, s), sbin_y(
                        m0, s), sbin_z(m0, s), syi, szi),
                self@.found.len() >= m0.found.len(),
                self@.found.take(m0.found.len() as int) == m0.found,
                forall|s: int| #![trigger sorted_at(m0, s)]
                    0 <= s < n ==> (self@.found.contains(s as usize) <==> m0.found.contains(
                        s as usize) || (dist2(sorted_at(m0, s), q) <= rq && before_bin(m0, s,
                        bxu as int, lyu as int, lzu as int))),
                forall|k: int|
                    m0.found.len() <= k < self@.found.len() ==> mkey(m0, (#[trigger] self@.found[
                        k]) as int) < flat_key(bxu as int, lyu as int, lzu as int, syi, szi),
                forall|k1: int, k2: int|
                    m0.found.len() <= k1 < k2 < self@.found.len() ==> search_lt(m0, self@.found[
                        k1] as int, self@.found[k2] as int),
            decreases hxu + 1 - bxu,
        {
            let mut byu = lyu;
            proof {
                assert forall|s: int|
                    0 <= s < n implies (self@.found.contains(s as usize)
                    <==> m0.found.contains(s as usize) || (dist2(sorted_at(m0, s), q) <= rq
                    && before_bin(m0, s, bxu as int, byu as int, lzu as int))) by {
                    assert(before_bin(m0, s, bxu as int, lyu as int, lzu as int)
                        == before_bin(m0, s, bxu as int, byu as int, lzu as int));
                    assert(self@.found.contains(s as usize) <==> m0.found.contains(s as usize)
                        || (dist2(sorted_at(m0, s), q) <= rq && before_bin(m0, s, bxu as int,
                        lyu as int, lzu as int)));
                }
            }
            while byu <= hyu
                invariant
                    self.wf(),
                    self@.points == m0.points,
                    self@.widths == m0.widths,
                    self@.perm == m0.perm,
                    n == m0.points.len() as int,
                    rq == (radius as int) * (radius as int),
                    pt_bounded(q),
                    0 <= radius <= COORD_LIMIT,
                    sxi == self.sx as int && syi == self.sy as int && szi == self.sz as int,
                    vol == sxi * syi * szi,
                    syszu as int == syi * szi,
                    szu as int == szi,
                    syi * szi <= vol,
                    volume_of(m0.points, m0.widths) == vol,
                    vol <= usize::MAX as int,
                    n <= usize::MAX as int,
                vol <= usize::MAX as int,
                n <= usize::MAX as int,
                    0 <= lxu as int <= hxu as int && (hxu as int) < sxi,
                    0 <= lyu as int <= hyu as int && (hyu as int) < syi,
                    0 <= lzu as int <= hzu as int && (hzu as int) < szi,
                    lxu as int <= bxu as int <= hxu as int,
                    lyu as int <= byu as int <= hyu as int + 1,
                    forall|s: int| #![trigger sorted_at(m0, s)]
                        0 <= s < n && dist2(sorted_at(m0, s), q) <= rq ==> (lxu as int <= sbin_x(
                            m0, s) <= hxu as int && lyu as int <= sbin_y(m0, s) <= hyu as int
                            && lzu as int <= sbin_z(m0, s) <= hzu as int),
                    forall|s: int|
                        0 <= s < n ==> #[trigger] mkey(m0, s) == flat_key(sbin_x(m0, s), sbin_y(
                            m0, s), sbin_z(m0, s), syi, szi),
                    self@.found.len() >= m0.found.len(),
                    self@.found.take(m0.found.len() as int) == m0.found,
                    forall|s: int| #![trigger sorted_at(m0, s)]
                        0 <= s < n ==> (self@.found.contains(s as usize) <==> m0.found.contains(
                            s as usize) || (dist2(sorted_at(m0, s), q) <= rq && before_bin(m0, s,
                            bxu as int, byu as int, lzu as int))),
                    forall|k: int|
                        m0.found.len() <= k < self@.found.len() ==> mkey(m0, (
                        #[trigger] self@.found[k]) as int) < flat_key(bxu as int, byu as int,
                            lzu as int, syi, szi),
                    forall|k1: int, k2: int|
                        m0.found.len() <= k1 < k2 < self@.found.len() ==> search_lt(m0,
                            self@.found[k1] as int, self@.found[k2] as int),
                decreases hyu + 1 - byu,
            {
                let mut bzu = lzu;
                proof {
                    assert forall|s: int|
                        0 <= s < n implies (self@.found.contains(s as usize)
                        <==> m0.found.contains(s as usize) || (dist2(sorted_at(m0, s), q) <= rq
                        && before_bin(m0, s, bxu as int, byu as int, bzu as int))) by {
                        assert(before_bin(m0, s, bxu as int, byu as int, lzu as int)
                            == before_bin(m0, s, bxu as int, byu as int, bzu as int));
                        assert(self@.found.contains(s as usize) <==> m0.found.contains(
                            s as usize) || (dist2(sorted_at(m0, s), q) <= rq && before_bin(m0, s,
                            bxu as int, byu as int, lzu as int)));
                    }
                }
                while bzu <= hzu
                    invariant
                        self.wf(),
                        self@.points == m0.points,
                        self@.widths == m0.widths,
                        self@.perm == m0.perm,
                        n == m0.points.len() as int,
                        rq == (radius as int) * (radius as int),
                        pt_bounded(q),
                        0 <= radius <= COORD_LIMIT,
                        sxi == self.sx as int && syi == self.sy as int && szi == self.sz as int,
                        vol == sxi * syi * szi,
                        syszu as int == syi * szi,
                        szu as int == szi,
                        syi * szi <= vol,
                        volume_of(m0.points, m0.widths) == vol,
                        vol <= usize::MAX as int,
                        n <= usize::MAX as int,
                    vol <= usize::MAX as int,
                    n <= usize::MAX as int,
                vol <= usize::MAX as int,
                n <= usize::MAX as int,
                        0 <= lxu as int <= hxu as int && (hxu as int) < sxi,
                        0 <= lyu as int <= hyu as int && (hyu as int) < syi,
                        0 <= lzu as int <= hzu as int && (hzu as int) < szi,
                        lxu as int <= bxu as int <= hxu as int,
                        lyu as int <= byu as int <= hyu as int,
                        lzu as int <= bzu as int <= hzu as int + 1,
                        forall|s: int| #![trigger sorted_at(m0, s)]
                            0 <= s < n && dist2(sorted_at(m0, s), q) <= rq ==> (lxu as int
                                <= sbin_x(m0, s) <= hxu as int && lyu as int <= sbin_y(m0, s)
                                <= hyu as int && lzu as int <= sbin_z(m0, s) <= hzu as int),
                        forall|s: int|
                            0 <= s < n ==> #[trigger] mkey(m0, s) == flat_key(sbin_x(m0, s),
                                sbin_y(m0, s), sbin_z(m0, s), syi, szi),
                        self@.found.len() >= m0.found.len(),
                        self@.found.take(m0.found.len() as int) == m0.found,
                        forall|s: int| #![trigger sorted_at(m0, s)]
                            0 <= s < n ==> (self@.found.contains(s as usize)
                                <==> m0.found.contains(s as usize) || (dist2(sorted_at(m0, s), q)
                                <= rq && before_bin(m0, s, bxu as int, byu as int,
                                bzu as int))),
                        forall|k: int|
                            m0.found.len() <= k < self@.found.len() ==> mkey(m0, (
                            #[trigger] self@.found[k]) as int) < flat_key(bxu as int,
                                byu as int, bzu as int, syi, szi),
                        forall|k1: int, k2: int|
                            m0.found.len() <= k1 < k2 < self@.found.len() ==> search_lt(m0,
                                self@.found[k1] as int, self@.found[k2] as int),
                    decreases hzu + 1 - bzu,
                {
                    proof {
                        lemma_flat_key_range(bxu as int, byu as int, bzu as int, sxi, syi, szi);
                        assert((bxu as int) * (syi * szi) == (bxu as int) * syi * szi && 0 <= (
                        bxu as int) * (syi * szi) && 0 <= (byu as int) * szi)
                            by (nonlinear_arith)
                            requires
                                0 <= bxu as int && 0 <= byu as int && 0 <= syi && 0 <= szi,
                        ;
                    }
                    let bk: usize = bxu * syszu + byu * szu + bzu;
                    let ghost mpre = self@;
                    let ghost fpre = self@.found;
                    proof {
                        assert(bk as int == flat_key(bxu as int, byu as int, bzu as int, syi,
                            szi));
                        assert(volume_of(mpre.points, mpre.widths) == vol);
                    }
                    self.search_bin(bk, q, radius);
                    proof {
                        let fpost = self@.found;
                        assert forall|t: int|
                            0 <= t < n implies #[trigger] mkey(mpre, t) == mkey(m0, t)
                            && sorted_at(mpre, t) == sorted_at(m0, t) by {
                            assert(mpre.points == m0.points && mpre.widths == m0.widths
                                && mpre.perm == m0.perm);
                        }
                        assert forall|s: int|
                            0 <= s < n implies (mkey(m0, s) == bk as int <==> (sbin_x(m0, s)
                            == bxu as int && sbin_y(m0, s) == byu as int && sbin_z(m0, s)
                            == bzu as int)) by {
                            reveal(bins_in_range);
                            assert(0 <= bin_x(m0.points[m0.perm[s] as int], origin_of(
                                m0.points), m0.widths) < sxi);
                            lemma_flat_key_lex(sbin_x(m0, s), sbin_y(m0, s), sbin_z(m0, s),
                                bxu as int, byu as int, bzu as int, sxi, syi, szi);
                        }
                        assert forall|s: int|
                            0 <= s < n implies (fpost.contains(s as usize)
                            <==> m0.found.contains(s as usize) || (dist2(sorted_at(m0, s), q)
                            <= rq && before_bin(m0, s, bxu as int, byu as int, bzu as int
                            + 1))) by {
                            assert(fpost.contains(s as usize) <==> fpre.contains(s as usize) || (
                            mkey(mpre, s) == bk as int && dist2(sorted_at(mpre, s), q) <= rq));
                            assert(mkey(mpre, s) == mkey(m0, s));
                            assert(sorted_at(mpre, s) == sorted_at(m0, s));
                            assert(mkey(m0, s) == bk as int <==> (sbin_x(m0, s) == bxu as int
                                && sbin_y(m0, s) == byu as int && sbin_z(m0, s) == bzu as int));
                            assert(fpre.contains(s as usize) <==> m0.found.contains(s as usize)
                                || (dist2(sorted_at(m0, s), q) <= rq && before_bin(m0, s,
                                bxu as int, byu as int, bzu as int)));
                            if dist2(sorted_at(m0, s), q) <= rq && mkey(m0, s) == bk as int {
                                assert(before_bin(m0, s, bxu as int, byu as int, bzu as int
                                    + 1));
                            }
                        }
                        assert forall|k: int|
                            m0.found.len() <= k < fpost.len() implies mkey(m0, (
                            #[trigger] fpost[k]) as int) < flat_key(bxu as int, byu as int,
                            bzu as int + 1, syi, szi) by {
                            if k < fpre.len() {
                                assert(fpost[k] == fpre[k]);
                            } else {
                                assert(mkey(mpre, fpost[k] as int) == bk as int);
                            }
                        }
                        assert forall|k1: int, k2: int|
                            m0.found.len() <= k1 < k2 < fpost.len() implies search_lt(m0, fpost[
                            k1] as int, fpost[k2] as int) by {
                            if k2 < fpre.len() {
                                assert(fpost[k1] == fpre[k1] && fpost[k2] == fpre[k2]);
                            } else if k1 < fpre.len() {
                                assert(fpost[k1] == fpre[k1]);
                                assert(mkey(m0, fpost[k1] as int) < bk as int);
                                assert(mkey(m0, fpost[k2] as int) == bk as int);
                            } else {
                                assert(mkey(m0, fpost[k1] as int) == bk as int);
                                assert(mkey(m0, fpost[k2] as int) == bk as int);
                                assert(fpost[k1] > fpost[k2]);
                            }
                        }
                        assert(self@.found.take(m0.found.len() as int) =~= m0.found);
                    }
                    bzu = bzu + 1;
                }
                proof {
                    assert forall|s: int|
                        0 <= s < n implies (self@.found.contains(s as usize)
                        <==> m0.found.contains(s as usize) || (dist2(sorted_at(m0, s), q) <= rq
                        && before_bin(m0, s, bxu as int, byu as int + 1, lzu as int))) by {
                        assert(self@.found.contains(s as usize) <==> m0.found.contains(
                            s as usize) || (dist2(sorted_at(m0, s), q) <= rq && before_bin(m0, s,
                            bxu as int, byu as int, bzu as int)));
                        if dist2(sorted_at(m0, s), q) <= rq {
                            assert(lzu as int <= sbin_z(m0, s) <= hzu as int);
                            assert(bzu as int == hzu as int + 1);
                        }
                    }
                    assert((byu as int + 1) * szi == (byu as int) * szi + szi)
                        by (nonlinear_arith);
                    assert(flat_key(bxu as int, byu as int, hzu as int + 1, syi, szi)
                        <= flat_key(bxu as int, byu as int + 1, lzu as int, syi, szi));
                }
                byu = byu + 1;
            }
            proof {
                assert forall|s: int|
                    0 <= s < n implies (self@.found.contains(s as usize)
                    <==> m0.found.contains(s as usize) || (dist2(sorted_at(m0, s), q) <= rq
                    && before_bin(m0, s, bxu as int + 1, lyu as int, lzu as int))) by {
                    assert(self@.found.contains(s as usize) <==> m0.found.contains(s as usize)
                        || (dist2(sorted_at(m0, s), q) <= rq && before_bin(m0, s, bxu as int,
                        byu as int, lzu as int)));
                    if dist2(sorted_at(m0, s), q) <= rq {
                        assert(lyu as int <= sbin_y(m0, s) <= hyu as int);
                        assert(byu as int == hyu as int + 1);
                    }
                }
                assert((hyu as int + 1) * szi <= syi * szi) by (nonlinear_arith)
                    requires
                        hyu as int + 1 <= syi,
                        0 <= szi,
                ;
                assert((bxu as int + 1) * syi * szi == (bxu as int) * syi * szi + syi * szi)
                    by (nonlinear_arith);
                assert((hyu as int + 1) * szi >= (lyu as int) * szi) by (nonlinear_arith)
                    requires
                        lyu as int <= hyu as int + 1,
                        0 <= szi,
                ;
                assert(flat_key(bxu as int, hyu as int + 1, lzu as int, syi, szi) <= flat_key(
                    bxu as int + 1, lyu as int, lzu as int, syi, szi));
            }
            bxu = bxu + 1;
        }
        proof {
            assert forall|s: int|
                0 <= s < n implies (self@.found.contains(s as usize) <==> m0.found.contains(
                s as usize) || dist2(sorted_at(m0, s), q) <= rq) by {
                assert(self@.found.contains(s as usize) <==> m0.found.contains(s as usize) || (
                dist2(sorted_at(m0, s), q) <= rq && before_bin(m0, s, bxu as int, lyu as int,
                lzu as int)));
                if dist2(sorted_at(m0, s), q) <= rq {
                    assert(lxu as int <= sbin_x(m0, s) <= hxu as int);
                    assert(before_bin(m0, s, bxu as int, lyu as int, lzu as int));
                }
            }
        }
        Ok(())
    }

    /// Restores the chains to their freshly built state and clears the
    /// accumulator: afterwards the abstract state is the constructed one.
    pub fn reset(&mut self)
        requires
            old(self).wf(),
        ensures
            final(self).wf(),
            final(self)@ == (BinModel { found: Seq::<usize>::empty(), ..old(self)@ }),
    {
        let fresh_first = copy_links(&self.snap_first);
        let fresh_next = copy_links(&self.snap_next);
        self.first_member = fresh_first;
        self.next_member = fresh_next;
        self.found = Vec::new();
        self.chains = Ghost(self.init_chains@);
        proof {
            let m0 = old(self)@;
            let m1 = self@;
            assert forall|s: int|
                0 <= s < m0.points.len() implies #[trigger] mkey(m1, s) == mkey(m0, s) by {
                assert(m1.points == m0.points && m1.widths == m0.widths && m1.perm == m0.perm);
            }
            lemma_bins_in_range_stable(m0, m1, self.sx as int, self.sy as int, self.sz as int);
            assert(m1 =~= (BinModel { found: Seq::<usize>::empty(), ..m0 }));
        }
    }
}

/// Appending to a sequence adds exactly one value to its membership.
proof fn lemma_push_contains<T>(f: Seq<T>, v: T)
    ensures
        forall|x: T| #[trigger] f.push(v).contains(x) <==> f.contains(x) || x == v,
{
    assert forall|x: T| #[trigger] f.push(v).contains(x) implies f.contains(x) || x == v by {
        let k = choose|k: int| 0 <= k < f.push(v).len() && f.push(v)[k] == x;
        if k < f.len() {
            assert(f[k] == x);
        }
    }
    assert forall|x: T| f.contains(x) || x == v implies #[trigger] f.push(v).contains(x) by {
        if x == v {
            assert(f.push(v)[f.len() as int] == x);
        } else {
            let k = choose|k: int| 0 <= k < f.len() && f[k] == x;
            assert(f.push(v)[k] == x);
        }
    }
}

/// Bin-range validity depends only on the points and widths, so it carries
/// over to any state that keeps them.
proof fn lemma_bins_in_range_stable(m0: BinModel, m1: BinModel, sx: int, sy: int, sz: int)
    requires
        bins_in_range(m0, sx, sy, sz),
        m1.points == m0.points,
        m1.widths == m0.widths,
    ensures
        bins_in_range(m1, sx, sy, sz),
{
    reveal(bins_in_range);
}

/// In a chain, whose adjacent members strictly decrease, any later member is
/// smaller than any earlier one.
proof fn lemma_chain_lt(c: Seq<int>, k1: int, k2: int)
    requires
        forall|k: int| #![trigger c[k], c[k - 1]] 0 < k < c.len() ==> c[k] < c[k - 1],
        0 <= k1 < k2 < c.len(),
    ensures
        c[k2] < c[k1],
    decreases k2 - k1,
{
    if k1 + 1 < k2 {
        lemma_chain_lt(c, k1 + 1, k2);
        assert(c[k1 + 1] < c[(k1 + 1) - 1]);
    } else {
        assert(c[k2] < c[k2 - 1]);
    }
}

/// Builds the per-bin chains: all heads empty, then every sorted index in
/// order is prepended to the chain of its bin key. The returned ghost
/// sequence mirrors each chain's members in traversal order.
#[verifier::rlimit(60)]
fn build_lists(keys: &Vec<usize>, perm: &Vec<usize>, vol: usize) -> (r: (
    Vec<Link>,
    Vec<Link>,
    Ghost<Seq<Seq<int>>>,
))
    requires
        perm@.len() == keys@.len(),
        forall|t: int| 0 <= t < perm@.len() ==> (#[trigger] perm@[t]) < keys@.len(),
        forall|t: int| 0 <= t < keys@.len() ==> ((#[trigger] keys@[t]) as int) < vol as int,
    ensures
        r.0@.len() == vol as int,
        r.1@.len() == keys@.len(),
        r.2@.len() == vol as int,
        forall|b: int| 0 <= b < vol ==> chain_linked(#[trigger] r.2@[b], r.0@[b], r.1@),
        forall|b: int, k: int|
            0 <= b < vol && 0 <= k < r.2@[b].len() ==> 0 <= #[trigger] r.2@[b][k]
                < keys@.len(),
        forall|b: int, k: int|
            0 <= b < vol && 0 <= k < r.2@[b].len() ==> keys@[perm@[#[trigger] r.2@[b][k]] as int]
                as int == b,
        forall|t: int|
            0 <= t < keys@.len() ==> r.2@[keys@[perm@[t] as int] as int].contains(t),
        forall|t: int| 0 <= t < keys@.len() ==> #[trigger] r.1@[t] != Link::Removed,
{
    let n = keys.len();
    let mut first: Vec<Link> = Vec::new();
    let mut b: usize = 0;
    while b < vol
        invariant
            0 <= b <= vol,
            first@.len() == b,
            forall|t: int| 0 <= t < b ==> #[trigger] first@[t] == Link::Nil,
        decreases vol - b,
    {
        first.push(Link::Nil);
        b = b + 1;
    }
    let mut next: Vec<Link> = Vec::new();
    let mut t: usize = 0;
    while t < n
        invariant
            0 <= t <= n,
            next@.len() == t,
            forall|u: int| 0 <= u < t ==> #[trigger] next@[u] == Link::Nil,
        decreases n - t,
    {
        next.push(Link::Nil);
        t = t + 1;
    }
    let ghost mut chains: Seq<Seq<int>> = Seq::new(vol as nat, |b: int| Seq::<int>::empty());
    let mut s: usize = 0;
    while s < n
        invariant
            0 <= s <= n,
            n == keys@.len(),
            perm@.len() == n,
            forall|t: int| 0 <= t < n ==> (#[trigger] perm@[t]) < n,
            forall|t: int| 0 <= t < n ==> ((#[trigger] keys@[t]) as int) < vol as int,
            first@.len() == vol,
            next@.len() == n,
            chains.len() == vol as int,
            forall|b: int|
                0 <= b < vol ==> chain_linked(#[trigger] chains[b], first@[b], next@),
            forall|b: int, k: int|
                0 <= b < vol && 0 <= k < chains[b].len() ==> 0 <= #[trigger] chains[b][k] < s,
            forall|b: int, k: int|
                0 <= b < vol && 0 <= k < chains[b].len() ==> keys@[perm@[#[trigger] chains[
                    b][k]] as int] as int == b,
            forall|t: int| 0 <= t < s ==> chains[keys@[perm@[t] as int] as int].contains(t),
            forall|t: int| 0 <= t < n ==> #[trigger] next@[t] != Link::Removed,
        decreases n - s,
    {
        let po = perm[s];
        let k = keys[po];
        let h = first[k];
        next[s] = h;
        first[k] = Link::To(s);
        proof {
            let ghost oldch = chains;
            let kk = k as int;
            chains = chains.update(kk, seq![s as int] + chains[kk]);
            assert forall|bb: int|
                0 <= bb < vol implies chain_linked(#[trigger] chains[bb], first@[bb], next@) by {
                if bb == kk {
                    let c = chains[kk];
                    let oc = oldch[kk];
                    assert(c == seq![s as int] + oc);
                    assert(c.len() == oc.len() + 1);
                    assert(c[0] == s as int);
                    assert(first@[kk] == Link::To(s));
                    assert(next@[s as int] == link_at(oc, 0));
                    assert forall|k2: int| 0 <= k2 < c.len() implies next@[#[trigger] c[k2]]
                        == link_at(c, k2 + 1) by {
                        if k2 == 0 {
                            assert(link_at(c, 1) == link_at(oc, 0));
                        } else {
                            assert(c[k2] == oc[k2 - 1]);
                            assert(c[k2] < s as int);
                            assert(next@[c[k2]] == link_at(oc, k2));
                            assert(link_at(c, k2 + 1) == link_at(oc, k2));
                        }
                    }
                } else {
                    let c = chains[bb];
                    assert(c == oldch[bb]);
                    assert(first@[bb] == link_at(c, 0));
                    assert forall|k2: int| 0 <= k2 < c.len() implies next@[#[trigger] c[k2]]
                        == link_at(c, k2 + 1) by {
                        assert(c[k2] < s as int);
                    }
                }
            }
            assert forall|t: int|
                0 <= t < s + 1 implies chains[keys@[perm@[t] as int] as int].contains(t) by {
                let tb = keys@[perm@[t] as int] as int;
                if t == s as int {
                    assert(chains[tb][0] == t);
                } else {
                    if tb == kk {
                        let j = choose|j: int| 0 <= j < oldch[tb].len() && oldch[tb][j] == t;
                        assert(chains[tb][j + 1] == t);
                    } else {
                        assert(chains[tb] == oldch[tb]);
                    }
                }
            }
        }
        s = s + 1;
    }
    (first, next, Ghost(chains))
}

/// A fresh copy of a link array (the snapshot restore).
fn copy_links(v: &Vec<Link>) -> (r: Vec<Link>)
    ensures
        r@ == v@,
{
    let mut r: Vec<Link> = Vec::new();
    let mut i: usize = 0;
    while i < v.len()
        invariant
            0 <= i <= v@.len(),
            r@.len() == i,
            forall|k: int| 0 <= k < i ==> #[trigger] r@[k] == v@[k],
        decreases v@.len() - i,
    {
        r.push(v[i]);
        i = i + 1;
    }
    proof {
        assert(r@ =~= v@);
    }
    r
}

/// A chain with the member at position `q` unlinked.
pub open spec fn remove_at(c: Seq<int>, q: int) -> Seq<int> {
    c.subrange(0, q) + c.subrange(q + 1, c.len() as int)
}

/// Position in the current chain of the member under the walk's cursor:
/// the retained prefix ends there and the unvisited tail of the entry chain
/// begins.
pub open spec fn cursor_pos(chc: Seq<Seq<int>>, bkey: int, c0: Seq<int>, j: int) -> int {
    chc[bkey].len() - (c0.len() - j)
}

/// The walk's full invariant over the bare state: the entry chain `c0` of
/// bin `bkey` is processed up to position `j`; retained members form the
/// prefix of the current chain, the rest of the structure is consistent,
/// and the accumulator has gained exactly the processed members within
/// distance (squared) `rq` of the query.
pub open spec fn walk_inv(
    m0: BinModel,
    bkey: int,
    c0: Seq<int>,
    j: int,
    chc: Seq<Seq<int>>,
    first: Seq<Link>,
    next: Seq<Link>,
    found: Seq<usize>,
    prev: Link,
    q: Point3,
    rq: int,
) -> bool {
    let n = m0.points.len() as int;
    &&& n <= usize::MAX as int
    &&& m0.perm.len() == n
    &&& forall|s: int| 0 <= s < n ==> (#[trigger] m0.perm[s]) < n
    &&& forall|i: int| 0 <= i < n ==> pt_bounded(#[trigger] m0.points[i])
    &&& forall|k: int| 0 <= k < m0.found.len() ==> (#[trigger] m0.found[k]) < n
    &&& forall|k1: int, k2: int|
        0 <= k1 < k2 < m0.found.len() ==> m0.found[k1] != m0.found[k2]
    &&& 0 <= bkey < chc.len()
    &&& first.len() == chc.len()
    &&& next.len() == n
    &&& forall|k: int| 0 <= k < c0.len() ==> 0 <= #[trigger] c0[k] < n
    &&& forall|k: int| #![trigger c0[k], c0[k - 1]] 0 < k < c0.len() ==> c0[k] < c0[k - 1]
    &&& forall|k: int| 0 <= k < c0.len() ==> mkey(m0, #[trigger] c0[k]) == bkey
    &&& forall|k: int| 0 <= k < c0.len() ==> !m0.found.contains((#[trigger] c0[k]) as usize)
    &&& forall|s: int|
        0 <= s < n && !m0.found.contains(s as usize) && mkey(m0, s) == bkey ==> c0.contains(s)
    &&& forall|s: int| 0 <= s < n ==> 0 <= #[trigger] mkey(m0, s) < chc.len()
    &&& 0 <= j <= c0.len()
    &&& forall|b: int| 0 <= b < chc.len() ==> chain_linked(#[trigger] chc[b], first[b], next)
    &&& forall|b: int, k: int|
        0 <= b < chc.len() && 0 <= k < chc[b].len() ==> mkey(m0, #[trigger] chc[b][k]) == b
    &&& forall|b: int, k: int|
        0 <= b < chc.len() && 0 <= k < chc[b].len() ==> !found.contains(
            (#[trigger] chc[b][k]) as usize)
    &&& forall|s: int| 0 <= s < n && !found.contains(s as usize) ==> chc[mkey(m0, s)].contains(s)
    &&& forall|s: int| 0 <= s < n ==> (next[s] == Link::Removed <==> found.contains(s as usize))
    &&& 0 <= cursor_pos(chc, bkey, c0, j)
    &&& forall|k: int|
        cursor_pos(chc, bkey, c0, j) <= k < chc[bkey].len() ==> #[trigger] chc[bkey][k] == c0[j
            + (k - cursor_pos(chc, bkey, c0, j))]
    &&& prev == (if cursor_pos(chc, bkey, c0, j) == 0 {
        Link::Nil
    } else {
        link_at(chc[bkey], cursor_pos(chc, bkey, c0, j) - 1)
    })
    &&& found.len() >= m0.found.len()
    &&& found.take(m0.found.len() as int) == m0.found
    &&& forall|k: int| 0 <= k < found.len() ==> (#[trigger] found[k]) < n
    &&& forall|k1: int, k2: int| 0 <= k1 < k2 < found.len() ==> found[k1] != found[k2]
    &&& forall|s: int|
        0 <= s < n ==> (found.contains(s as usize) <==> m0.found.contains(s as usize) || (
        c0.take(j).contains(s) && dist2(sorted_at(m0, s), q) <= rq))
    &&& forall|k: int|
        m0.found.len() <= k < found.len() ==> c0.take(j).contains((#[trigger] found[k]) as int)
    &&& forall|k: int|
        m0.found.len() <= k < found.len() ==> mkey(m0, (#[trigger] found[k]) as int) == bkey
    &&& forall|k1: int, k2: int|
        m0.found.len() <= k1 < k2 < found.len() ==> found[k1] > found[k2]
}

/// One walk step that keeps the member under the cursor: the state is
/// unchanged, the cursor advances, and the retained prefix grows by one.
proof fn lemma_retain_step(
    m0: BinModel,
    bkey: int,
    c0: Seq<int>,
    j: int,
    chc: Seq<Seq<int>>,
    first: Seq<Link>,
    next: Seq<Link>,
    found: Seq<usize>,
    prev: Link,
    q: Point3,
    rq: int,
)
    requires
        walk_inv(m0, bkey, c0, j, chc, first, next, found, prev, q, rq),
        0 <= j < c0.len(),
        dist2(sorted_at(m0, c0[j]), q) > rq,
    ensures
        walk_inv(m0, bkey, c0, j + 1, chc, first, next, found, Link::To(c0[j] as usize), q, rq),
{
    let qr = cursor_pos(chc, bkey, c0, j);
    let ch = chc[bkey];
    assert(ch[qr] == c0[j]);
    lemma_push_contains(c0.take(j), c0[j]);
    assert(c0.take(j + 1) =~= c0.take(j).push(c0[j]));
    assert(cursor_pos(chc, bkey, c0, j + 1) == qr + 1);
    assert(Link::To(c0[j] as usize) == link_at(ch, qr));
    assert forall|s: int|
        0 <= s < m0.points.len() implies (found.contains(s as usize) <==> m0.found.contains(
        s as usize) || (c0.take(j + 1).contains(s) && dist2(sorted_at(m0, s), q) <= rq)) by {
        assert(c0.take(j + 1) == c0.take(j).push(c0[j]));
        assert(c0.take(j).push(c0[j]).contains(s) <==> c0.take(j).contains(s) || s == c0[j]);
        if s == c0[j] {
            assert(dist2(sorted_at(m0, s), q) > rq);
        }
    }
    assert forall|k: int|
        cursor_pos(chc, bkey, c0, j + 1) <= k < chc[bkey].len() implies #[trigger] chc[bkey][k]
        == c0[(j + 1) + (k - cursor_pos(chc, bkey, c0, j + 1))] by {
        assert(chc[bkey][k] == c0[j + (k - qr)]);
    }
}

/// One walk step that unlinks the member under the cursor and appends it to
/// the accumulator: every structural clause of the invariant survives with
/// the member moved from its chain to the found list.
#[verifier::rlimit(100)]
proof fn lemma_unlink_step(
    m0: BinModel,
    bkey: int,
    c0: Seq<int>,
    j: int,
    chc: Seq<Seq<int>>,
    first: Seq<Link>,
    next: Seq<Link>,
    found: Seq<usize>,
    prev: Link,
    q: Point3,
    rq: int,
    post_first: Seq<Link>,
    post_next: Seq<Link>,
)
    requires
        walk_inv(m0, bkey, c0, j, chc, first, next, found, prev, q, rq),
        0 <= j < c0.len(),
        dist2(sorted_at(m0, c0[j]), q) <= rq,
        post_first == (if cursor_pos(chc, bkey, c0, j) == 0 {
            first.update(bkey, link_at(c0, j + 1))
        } else {
            first
        }),
        post_next == (if cursor_pos(chc, bkey, c0, j) == 0 {
            next
        } else {
            next.update(chc[bkey][cursor_pos(chc, bkey, c0, j) - 1], link_at(c0, j + 1))
        }).update(c0[j], Link::Removed),
    ensures
        walk_inv(
            m0,
            bkey,
            c0,
            j + 1,
            chc.update(bkey, remove_at(chc[bkey], cursor_pos(chc, bkey, c0, j))),
            post_first,
            post_next,
            found.push(c0[j] as usize),
            prev,
            q,
            rq,
        ),
{
    let n = m0.points.len() as int;
    let ch = chc[bkey];
    let qr = cursor_pos(chc, bkey, c0, j);
    let newc = remove_at(ch, qr);
    let chc1 = chc.update(bkey, newc);
    let found1 = found.push(c0[j] as usize);
    let s = c0[j];
    let nx = link_at(c0, j + 1);
    assert(ch[qr] == s);
    assert(chain_linked(ch, first[bkey], next));
    assert(next[s] == link_at(ch, qr + 1));
    if qr + 1 < ch.len() {
        assert(ch[qr + 1] == c0[j + 1]);
    }
    assert(next[s] == nx);
    assert(0 <= s < n);
    if qr >= 1 {
        assert(ch[qr] < ch[qr - 1]);
        assert(0 <= ch[qr - 1] < n);
    }
    lemma_push_contains(found, s as usize);
    lemma_push_contains(c0.take(j), s);
    assert(c0.take(j + 1) =~= c0.take(j).push(s));
    assert(newc.len() == ch.len() - 1);
    assert(forall|k: int| 0 <= k < qr ==> #[trigger] newc[k] == ch[k]);
    assert(forall|k: int| qr <= k < newc.len() ==> #[trigger] newc[k] == ch[k + 1]);
    // the removed member is distinct from every other member of its chain
    assert forall|k: int| 0 <= k < ch.len() && k != qr implies #[trigger] ch[k] != ch[qr] by {
        if k < qr {
            lemma_chain_lt(ch, k, qr);
        } else {
            lemma_chain_lt(ch, qr, k);
        }
    }
    assert(cursor_pos(chc1, bkey, c0, j + 1) == qr);
    // the bin's chain stays linked after the unlink
    assert(chain_linked(newc, post_first[bkey], post_next)) by {
        if qr == 0 {
            assert(post_first[bkey] == nx);
            assert(nx == link_at(newc, 0));
        } else {
            assert(post_first[bkey] == first[bkey]);
            assert(newc[0] == ch[0]);
        }
        assert forall|k: int|
            0 <= k < newc.len() implies #[trigger] post_next[newc[k]] == link_at(
            newc, k + 1) by {
            if qr >= 1 && k == qr - 1 {
                assert(newc[k] == ch[qr - 1]);
                assert(post_next[newc[k]] == nx);
                if qr < newc.len() {
                    assert(newc[qr] == ch[qr + 1]);
                }
            } else {
                assert(newc[k] != ch[qr]);
                if qr >= 1 {
                    assert(newc[k] != ch[qr - 1]);
                }
                assert(post_next[newc[k]] == next[newc[k]]);
                if k < qr {
                    assert(next[newc[k]] == link_at(ch, k + 1));
                    assert(link_at(ch, k + 1) == link_at(newc, k + 1));
                } else {
                    assert(newc[k] == ch[k + 1]);
                    assert(next[newc[k]] == link_at(ch, k + 2));
                    assert(link_at(ch, k + 2) == link_at(newc, k + 1));
                }
            }
        }
        assert forall|k: int| #![trigger newc[k], newc[k - 1]]
            0 < k < newc.len() implies newc[k] < newc[k - 1] by {
            if k < qr {
                assert(newc[k] == ch[k] && newc[k - 1] == ch[k - 1]);
                lemma_chain_lt(ch, k - 1, k);
            } else if k == qr {
                lemma_chain_lt(ch, qr - 1, qr + 1);
            } else {
                assert(newc[k] == ch[k + 1] && newc[k - 1] == ch[k]);
                lemma_chain_lt(ch, k, k + 1);
            }
        }
    }
    if qr >= 1 {
        assert(newc[qr - 1] == ch[qr - 1]);
        assert(prev == link_at(newc, qr - 1));
    }
    assert forall|k: int|
        qr <= k < newc.len() implies #[trigger] newc[k] == c0[(j + 1) + (k - qr)] by {
        assert(newc[k] == ch[k + 1]);
        assert(ch[k + 1] == c0[j + (k + 1 - qr)]);
    }
    // chains of other bins are untouched
    assert forall|b: int|
        0 <= b < chc1.len() && b != bkey implies chain_linked(#[trigger] chc1[b], post_first[b],
        post_next) by {
        let cb = chc1[b];
        assert(cb == chc[b]);
        assert(chain_linked(cb, first[b], next));
        assert(post_first[b] == first[b]);
        assert forall|k: int|
            0 <= k < cb.len() implies #[trigger] post_next[cb[k]] == link_at(cb, k + 1) by {
            assert(mkey(m0, cb[k]) == b);
            assert(cb[k] != ch[qr]);
            if qr >= 1 {
                assert(mkey(m0, ch[qr - 1]) == bkey);
                assert(cb[k] != ch[qr - 1]);
            }
        }
    }
    // completeness: everything still unfound is still chained in its bin
    assert forall|t: int|
        0 <= t < n && !found1.contains(t as usize) implies chc1[mkey(m0, t)].contains(t) by {
        let tb = mkey(m0, t);
        assert(!found.contains(t as usize));
        assert(chc[tb].contains(t));
        if tb == bkey {
            let kk = choose|kk: int| 0 <= kk < ch.len() && ch[kk] == t;
            assert(t != ch[qr]);
            if kk < qr {
                assert(newc[kk] == t);
            } else {
                assert(newc[kk - 1] == t);
            }
        }
    }
    // the tombstone marks exactly the found members
    assert forall|t: int|
        0 <= t < n implies (post_next[t] == Link::Removed <==> found1.contains(
        t as usize)) by {
        if t != s && qr >= 1 && t == ch[qr - 1] {
            assert(post_next[t] == nx);
            assert(!found.contains(ch[qr - 1] as usize));
        }
    }
    assert(found1.take(m0.found.len() as int) =~= m0.found);
    // membership after the step: exactly the processed members within reach
    assert forall|t: int|
        0 <= t < n implies (found1.contains(t as usize) <==> m0.found.contains(t as usize) || (
        c0.take(j + 1).contains(t) && dist2(sorted_at(m0, t), q) <= rq)) by {
        assert(found1.contains(t as usize) <==> found.contains(t as usize) || t as usize == (
        s as usize));
        assert(c0.take(j).push(s).contains(t) <==> c0.take(j).contains(t) || t == s);
        assert(c0.take(j + 1) == c0.take(j).push(s));
    }
    // every earlier new entry sits above the member just removed
    assert forall|k1: int| m0.found.len() <= k1 < found.len() implies found[k1] > (
    s as usize) by {
        let x = (found[k1] as usize) as int;
        assert(c0.take(j).contains(x));
        let kk = choose|kk: int| 0 <= kk < c0.take(j).len() && c0.take(j)[kk] == x;
        assert(c0[kk] == x);
        lemma_chain_lt(c0, kk, j);
    }
    assert forall|k: int|
        m0.found.len() <= k < found1.len() implies c0.take(j + 1).contains(
        (#[trigger] found1[k]) as int) by {
        assert(c0.take(j + 1) == c0.take(j).push(s));
        if k < found.len() {
            assert(c0.take(j).contains(found[k] as int));
            assert(c0.take(j).push(s).contains(found[k] as int));
        } else {
            assert(found1[k] == s as usize);
            assert(c0.take(j + 1)[j] == s);
        }
    }
    assert forall|k: int|
        m0.found.len() <= k < found1.len() implies mkey(m0, (#[trigger] found1[k]) as int)
        == bkey by {
        if k == found.len() {
            assert(found1[k] == s as usize);
            assert(mkey(m0, c0[j]) == bkey);
        }
    }
}

/// Walks the chain of bin `bkey` through the link arrays, removing every
/// member whose point lies within the search ball and appending it to
/// `found`. Works on the bare arrays so the chain bookkeeping stays free of
/// the rest of the index state; `m0` only supplies the bin labels and the
/// geometry of the sorted points.
#[verifier::rlimit(60)]
fn walk_bin(
    first: &mut Vec<Link>,
    next: &mut Vec<Link>,
    found: &mut Vec<usize>,
    pts_sorted: &Vec<Point3>,
    bkey: usize,
    q: Point3,
    radius: i64,
    Ghost(m0): Ghost<BinModel>,
    chs: Ghost<Seq<Seq<int>>>,
) -> (gch: Ghost<Seq<Seq<int>>>)
    requires
        pt_bounded(q),
        0 <= radius <= COORD_LIMIT,
        m0.points.len() <= usize::MAX,
        old(found)@ == m0.found,
        forall|k: int| 0 <= k < m0.found.len() ==> (#[trigger] m0.found[k]) < m0.points.len(),
        forall|k1: int, k2: int|
            0 <= k1 < k2 < m0.found.len() ==> m0.found[k1] != m0.found[k2],
        m0.perm.len() == m0.points.len(),
        forall|s: int| 0 <= s < m0.points.len() ==> (#[trigger] m0.perm[s]) < m0.points.len(),
        forall|i: int| 0 <= i < m0.points.len() ==> pt_bounded(#[trigger] m0.points[i]),
        pts_sorted@.len() == m0.points.len(),
        forall|s: int|
            0 <= s < m0.points.len() ==> #[trigger] pts_sorted@[s] == sorted_at(m0, s),
        (bkey as int) < chs@.len(),
        old(first)@.len() == chs@.len(),
        old(next)@.len() == m0.points.len(),
        lists_wf(m0, chs@, old(first)@, old(next)@),
        forall|b: int, k: int|
            0 <= b < chs@.len() && 0 <= k < chs@[b].len() ==> !m0.found.contains(
                (#[trigger] chs@[b][k]) as usize),
        forall|s: int| 0 <= s < m0.points.len() ==> 0 <= #[trigger] mkey(m0, s) < chs@.len(),
        forall|s: int|
            0 <= s < m0.points.len() && !m0.found.contains(s as usize) ==> chs@[mkey(
                m0, s)].contains(s),
        forall|s: int|
            0 <= s < m0.points.len() ==> (old(next)@[s] == Link::Removed <==> m0.found.contains(
                s as usize)),
    ensures
        final(first)@.len() == old(first)@.len(),
        final(next)@.len() == old(next)@.len(),
        gch@.len() == chs@.len(),
        lists_wf(m0, gch@, final(first)@, final(next)@),
        forall|b: int, k: int|
            0 <= b < gch@.len() && 0 <= k < gch@[b].len() ==> !final(found)@.contains(
                (#[trigger] gch@[b][k]) as usize),
        forall|s: int|
            0 <= s < m0.points.len() && !final(found)@.contains(s as usize) ==> gch@[mkey(
                m0, s)].contains(s),
        forall|s: int|
            0 <= s < m0.points.len() ==> (final(next)@[s] == Link::Removed <==> final(
                found)@.contains(s as usize)),
        final(found)@.len() >= m0.found.len(),
        final(found)@.take(m0.found.len() as int) == m0.found,
        forall|k: int| 0 <= k < final(found)@.len() ==> (#[trigger] final(found)@[k])
            < m0.points.len(),
        forall|k1: int, k2: int|
            0 <= k1 < k2 < final(found)@.len() ==> final(found)@[k1] != final(found)@[k2],
        forall|s: int|
            0 <= s < m0.points.len() ==> (final(found)@.contains(s as usize)
                <==> m0.found.contains(s as usize) || (mkey(m0, s) == bkey as int && dist2(
                sorted_at(m0, s), q) <= (radius as int) * (radius as int))),
        forall|k: int|
            m0.found.len() <= k < final(found)@.len() ==> mkey(m0, (#[trigger] final(
            found)@[k]) as int) == bkey as int,
        forall|k1: int, k2: int|
            m0.found.len() <= k1 < k2 < final(found)@.len() ==> final(found)@[k1] > final(
                found)@[k2],
{
    let ghost n = m0.points.len() as int;
    let ghost c0 = chs@[bkey as int];
    let ghost rq = (radius as int) * (radius as int);
    let ghost mut chc: Seq<Seq<int>> = chs@;
    proof {
        assert(0 <= (radius as int) * (radius as int) <= (COORD_LIMIT as int) * (
        COORD_LIMIT as int)) by (nonlinear_arith)
            requires
                0 <= radius as int <= COORD_LIMIT as int,
        ;
    }
    let rsq: i128 = (radius as i128) * (radius as i128);
    let mut cur: Link = first[bkey];
    let mut prev: Link = Link::Nil;
    let ghost mut j: int = 0;
    proof {
        assert(c0.take(0) =~= Seq::<int>::empty());
        assert(chain_linked(c0, first@[bkey as int], next@));
        assert(found@.take(m0.found.len() as int) =~= m0.found);
        assert(walk_inv(m0, bkey as int, c0, 0, chc, first@, next@, found@, prev, q, rq));
    }
    while cur != Link::Nil
        invariant
            pt_bounded(q),
            0 <= radius <= COORD_LIMIT,
            rq == (radius as int) * (radius as int),
            rsq as int == rq,
            n == m0.points.len() as int,
            pts_sorted@.len() == n,
            forall|s: int| 0 <= s < n ==> #[trigger] pts_sorted@[s] == sorted_at(m0, s),
            chc.len() == chs@.len(),
            first@.len() == chc.len(),
            next@.len() == n,
            0 <= j <= c0.len(),
            cur == link_at(c0, j),
            walk_inv(m0, bkey as int, c0, j, chc, first@, next@, found@, prev, q, rq),
        decreases c0.len() - j,
    {
        // the invariant puts a member link under the cursor whenever the
        // loop runs, so the fallback arm is never taken
        let s: usize = match cur {
            Link::To(v) => v,
            _ => 0,
        };
        proof {
            if j >= c0.len() {
                assert(cur == Link::Nil);
            }
            assert(j < c0.len());
            assert(link_at(c0, j) == Link::To(c0[j] as usize));
            assert(0 <= c0[j] < n);
            assert(s as int == c0[j]);
        }
        let ghost pre_first = first@;
        let ghost pre_next = next@;
        let ghost ch = chc[bkey as int];
        let ghost qr = cursor_pos(chc, bkey as int, c0, j);
        proof {
            assert(chain_linked(ch, pre_first[bkey as int], pre_next));
            assert(0 <= qr < ch.len());
            assert(ch[qr] == c0[j]);
        }
        let nx = next[s];
        proof {
            assert(nx == link_at(ch, qr + 1));
            if qr + 1 < ch.len() {
                assert(ch[qr + 1] == c0[j + 1]);
                assert(nx == link_at(c0, j + 1));
            } else {
                assert(j + 1 == c0.len());
                assert(nx == link_at(c0, j + 1));
            }
        }
        let ps = pts_sorted[s];
        proof {
            assert(ps == sorted_at(m0, s as int));
            assert(0 <= m0.perm[s as int] < n);
            assert(pt_bounded(m0.points[m0.perm[s as int] as int]));
        }
        let d = dist2_exec(ps, q);
        if d <= rsq {
            match prev {
                Link::Nil => {
                    first[bkey] = nx;
                },
                Link::To(p) => {
                    next[p] = nx;
                },
                Link::Removed => {},
            }
            next[s] = Link::Removed;
            let ghost pre_found = found@;
            found.push(s);
            proof {
                if qr >= 1 {
                    assert(0 <= ch[qr - 1] < n);
                    assert(prev == Link::To(ch[qr - 1] as usize));
                    assert(next@ == pre_next.update(ch[qr - 1], nx).update(c0[j], Link::Removed));
                    assert(first@ == pre_first);
                } else {
                    assert(prev == Link::Nil);
                    assert(first@ == pre_first.update(bkey as int, nx));
                    assert(next@ == pre_next.update(c0[j], Link::Removed));
                }
                lemma_unlink_step(m0, bkey as int, c0, j, chc, pre_first, pre_next, pre_found,
                    prev, q, rq, first@, next@);
                assert(found@ == pre_found.push(c0[j] as usize));
                chc = chc.update(bkey as int, remove_at(ch, qr));
            }
        } else {
            proof {
                lemma_retain_step(m0, bkey as int, c0, j, chc, first@, next@, found@, prev, q,
                    rq);
                assert(Link::To(c0[j] as usize) == cur);
            }
            prev = cur;
        }
        cur = nx;
        proof {
            j = j + 1;
        }
    }
    proof {
        assert(j == c0.len());
        assert(c0.take(c0.len() as int) =~= c0);
        assert forall|s: int|
            0 <= s < n implies (found@.contains(s as usize) <==> m0.found.contains(s as usize)
            || (mkey(m0, s) == bkey as int && dist2(sorted_at(m0, s), q) <= rq)) by {
            if !m0.found.contains(s as usize) && mkey(m0, s) == bkey as int {
                assert(c0.contains(s));
            }
            if c0.contains(s) {
                let k = choose|k: int| 0 <= k < c0.len() && c0[k] == s;
                assert(mkey(m0, c0[k]) == bkey as int);
            }
        }
    }
    Ghost(chc)
}

/// Shape validity of the raw inputs: three bin widths and three coordinates
/// in every point row.
pub open spec fn dims_ok(rows: Seq<Vec<i64>>, w: Seq<i64>) -> bool {
    &&& w.len() == 3
    &&& forall|i: int| 0 <= i < rows.len() ==> (#[trigger] rows[i])@.len() == 3
}

/// The rows of the raw input as points.
pub open spec fn pts_of(rows: Seq<Vec<i64>>) -> Seq<Point3> {
    Seq::new(rows.len(), |i: int| Point3 { x: rows[i]@[0], y: rows[i]@[1], z: rows[i]@[2] })
}

/// The raw width triple as a per-axis vector.
pub open spec fn w_of(w: Seq<i64>) -> Point3 {
    Point3 { x: w[0], y: w[1], z: w[2] }
}

} // verus!
