//! The library's stated laws, proved once and for all over the abstract
//! model: bounds and completeness of the accumulator, boundary inclusivity
//! of the distance test, idempotence of reset, and independence of the
//! matched set from input order.

use vstd::prelude::*;
use vstd::set_lib::lemma_int_range;
use vstd::set_lib::set_int_range;
use vstd::set_lib::lemma_len_subset;
use vstd::set_lib::lemma_subset_equality;
use crate::geom::Point3;
use crate::geom::dist2;
use crate::pointbin::BinModel;
use crate::pointbin::inv;
use crate::pointbin::sorted_at;
use crate::pointbin::search_lt;

verus! {

/// The found list of a well-formed state, as mathematical integers.
pub open spec fn found_ints(m: BinModel) -> Seq<int> {
    Seq::new(m.found.len(), |k: int| m.found[k] as int)
}

/// The original indices a session has claimed, in discovery order.
pub open spec fn found_origs(m: BinModel) -> Seq<int> {
    Seq::new(m.found.len(), |k: int| m.perm[m.found[k] as int] as int)
}

/// A duplicate-free sequence of values drawn from `0 .. n` has at most `n`
/// entries; with exactly `n` entries it covers every value.
proof fn lemma_distinct_bounded_seq(s: Seq<int>, n: int)
    requires
        0 <= n,
        forall|k: int| 0 <= k < s.len() ==> 0 <= #[trigger] s[k] < n,
        forall|k1: int, k2: int| 0 <= k1 < k2 < s.len() ==> s[k1] != s[k2],
    ensures
        s.len() <= n,
        s.len() == n ==> forall|v: int| 0 <= v < n ==> s.contains(v),
{
    assert(s.no_duplicates());
    s.unique_seq_to_set();
    let rng = set_int_range(0, n);
    lemma_int_range(0, n);
    assert(s.to_set().subset_of(rng)) by {
        assert forall|v: int| s.to_set().contains(v) implies rng.contains(v) by {
            assert(s.contains(v));
            let k = choose|k: int| 0 <= k < s.len() && s[k] == v;
            assert(0 <= s[k] < n);
        }
    }
    lemma_len_subset(s.to_set(), rng);
    if s.len() == n {
        assert(s.to_set().len() == rng.len());
        lemma_subset_equality(s.to_set(), rng);
        assert forall|v: int| 0 <= v < n implies s.contains(v) by {
            assert(rng.contains(v));
            assert(s.to_set().contains(v));
        }
    }
}

/// The accumulator never exceeds the number of points: its entries are
/// pairwise distinct sorted indices below `n`.
pub proof fn lemma_found_count_le_points(m: BinModel)
    requires
        inv(m),
    ensures
        m.found.len() <= m.points.len(),
{
    let s = found_ints(m);
    lemma_distinct_bounded_seq(s, m.points.len() as int);
}

/// A session that has claimed every point has returned each original index
/// exactly once: the returned values cover all of `0 .. n`, and they are
/// pairwise distinct by the permutation's injectivity.
pub proof fn lemma_complete_session_covers_all(m: BinModel)
    requires
        inv(m),
        m.found.len() == m.points.len(),
    ensures
        forall|i: int| 0 <= i < m.points.len() ==> found_origs(m).contains(i),
        forall|k1: int, k2: int|
            0 <= k1 < k2 < found_origs(m).len() ==> found_origs(m)[k1] != found_origs(m)[k2],
{
    let n = m.points.len() as int;
    let s = found_origs(m);
    assert forall|k1: int, k2: int| 0 <= k1 < k2 < s.len() implies s[k1] != s[k2] by {
        assert(m.found[k1] != m.found[k2]);
        assert(m.perm[m.found[k1] as int] != m.perm[m.found[k2] as int]);
    }
    lemma_distinct_bounded_seq(s, n);
}

/// Boundary inclusivity: a point at distance exactly the radius satisfies
/// the search's membership characterization, so a search with that radius
/// claims it. The hypothesis is the postcondition `radius_search` gives.
pub proof fn lemma_boundary_inclusive(
    m0: BinModel,
    m1: BinModel,
    q: Point3,
    radius: int,
    s: int,
)
    requires
        0 <= s < m0.points.len(),
        dist2(sorted_at(m0, s), q) == radius * radius,
        forall|t: int|
            0 <= t < m0.points.len() ==> (m1.found.contains(t as usize) <==> m0.found.contains(
                t as usize) || dist2(sorted_at(m0, t), q) <= radius * radius),
    ensures
        m1.found.contains(s as usize),
{
}

/// Resetting is idempotent: clearing the accumulator of an already cleared
/// state changes nothing, so two resets in a row equal one.
pub proof fn lemma_reset_idempotent(m: BinModel)
    ensures
        (BinModel { found: Seq::<usize>::empty(), ..(BinModel {
            found: Seq::<usize>::empty(),
            ..m
        }) }) == (BinModel { found: Seq::<usize>::empty(), ..m }),
{
}

/// Two sequences with the same members, both strictly descending in the
/// search order of `m` (ascending bin key, descending sorted index within a
/// key), are the same sequence.
proof fn lemma_search_order_unique(m: BinModel, a: Seq<usize>, b: Seq<usize>)
    requires
        forall|x: usize| a.contains(x) <==> b.contains(x),
        forall|k1: int, k2: int|
            0 <= k1 < k2 < a.len() ==> search_lt(m, a[k1] as int, a[k2] as int),
        forall|k1: int, k2: int|
            0 <= k1 < k2 < b.len() ==> search_lt(m, b[k1] as int, b[k2] as int),
    ensures
        a =~= b,
    decreases a.len(),
{
    if a.len() == 0 {
        if b.len() > 0 {
            assert(b.contains(b[0]));
            assert(a.contains(b[0]));
        }
    } else {
        assert(a.contains(a[0]));
        assert(b.contains(a[0]));
        let kb = choose|kb: int| 0 <= kb < b.len() && b[kb] == a[0];
        assert(b.contains(b[0]));
        assert(a.contains(b[0]));
        let ka = choose|ka: int| 0 <= ka < a.len() && a[ka] == b[0];
        if kb > 0 {
            assert(search_lt(m, b[0] as int, a[0] as int));
            if ka > 0 {
                assert(search_lt(m, a[0] as int, b[0] as int));
                assert(false);
            }
        }
        assert(a[0] == b[0]);
        let at = a.subrange(1, a.len() as int);
        let bt = b.subrange(1, b.len() as int);
        assert forall|x: usize| at.contains(x) implies bt.contains(x) by {
            let k = choose|k: int| 0 <= k < at.len() && at[k] == x;
            assert(a[k + 1] == x);
            assert(search_lt(m, a[0] as int, x as int));
            assert(b.contains(x));
            let k2 = choose|k2: int| 0 <= k2 < b.len() && b[k2] == x;
            assert(k2 != 0);
            assert(bt[k2 - 1] == x);
        }
        assert forall|x: usize| bt.contains(x) implies at.contains(x) by {
            let k = choose|k: int| 0 <= k < bt.len() && bt[k] == x;
            assert(b[k + 1] == x);
            assert(search_lt(m, b[0] as int, x as int));
            assert(a.contains(x));
            let k2 = choose|k2: int| 0 <= k2 < a.len() && a[k2] == x;
            assert(k2 != 0);
            assert(at[k2 - 1] == x);
        }
        lemma_search_order_unique(m, at, bt);
        assert(a =~= seq![a[0]] + at);
        assert(b =~= seq![b[0]] + bt);
    }
}

/// Restoration: a search's outcome is pinned by the state it starts from.
/// Two result lists that both satisfy the search's postcondition over the
/// same starting state — the same membership characterization, the same
/// preserved prefix, and the same visiting order on the new entries — are
/// equal. With `reset` restoring the freshly built state exactly, repeating
/// the first search of a session therefore reproduces its result.
pub proof fn lemma_search_deterministic(
    m0: BinModel,
    q: Point3,
    radius: int,
    fa: Seq<usize>,
    fb: Seq<usize>,
)
    requires
        fa.len() >= m0.found.len() && fa.take(m0.found.len() as int) == m0.found,
        fb.len() >= m0.found.len() && fb.take(m0.found.len() as int) == m0.found,
        forall|s: int|
            0 <= s < m0.points.len() ==> (fa.contains(s as usize) <==> m0.found.contains(
                s as usize) || dist2(sorted_at(m0, s), q) <= radius * radius),
        forall|s: int|
            0 <= s < m0.points.len() ==> (fb.contains(s as usize) <==> m0.found.contains(
                s as usize) || dist2(sorted_at(m0, s), q) <= radius * radius),
        forall|k: int| 0 <= k < fa.len() ==> (#[trigger] fa[k]) < m0.points.len(),
        forall|k: int| 0 <= k < fb.len() ==> (#[trigger] fb[k]) < m0.points.len(),
        forall|k1: int, k2: int| 0 <= k1 < k2 < fa.len() ==> fa[k1] != fa[k2],
        forall|k1: int, k2: int| 0 <= k1 < k2 < fb.len() ==> fb[k1] != fb[k2],
        forall|k1: int, k2: int|
            m0.found.len() <= k1 < k2 < fa.len() ==> search_lt(m0, fa[k1] as int, fa[k2] as int),
        forall|k1: int, k2: int|
            m0.found.len() <= k1 < k2 < fb.len() ==> search_lt(m0, fb[k1] as int, fb[k2] as int),
    ensures
        fa == fb,
{
    let len0 = m0.found.len() as int;
    let ta = fa.skip(len0);
    let tb = fb.skip(len0);
    assert forall|x: usize| ta.contains(x) implies tb.contains(x) by {
        let k = choose|k: int| 0 <= k < ta.len() && ta[k] == x;
        assert(fa[k + len0] == x);
        assert(!m0.found.contains(x)) by {
            if m0.found.contains(x) {
                let k0 = choose|k0: int| 0 <= k0 < m0.found.len() && m0.found[k0] == x;
                assert(fa[k0] == x);
            }
        }
        assert(fa.contains(x));
        assert(dist2(sorted_at(m0, x as int), q) <= radius * radius);
        assert(fb.contains(x));
        let k2 = choose|k2: int| 0 <= k2 < fb.len() && fb[k2] == x;
        assert(k2 >= len0) by {
            if k2 < len0 {
                assert(m0.found[k2] == x);
            }
        }
        assert(tb[k2 - len0] == x);
    }
    assert forall|x: usize| tb.contains(x) implies ta.contains(x) by {
        let k = choose|k: int| 0 <= k < tb.len() && tb[k] == x;
        assert(fb[k + len0] == x);
        assert(!m0.found.contains(x)) by {
            if m0.found.contains(x) {
                let k0 = choose|k0: int| 0 <= k0 < m0.found.len() && m0.found[k0] == x;
                assert(fb[k0] == x);
            }
        }
        assert(fb.contains(x));
        assert(dist2(sorted_at(m0, x as int), q) <= radius * radius);
        assert(fa.contains(x));
        let k2 = choose|k2: int| 0 <= k2 < fa.len() && fa[k2] == x;
        assert(k2 >= len0) by {
            if k2 < len0 {
                assert(m0.found[k2] == x);
            }
        }
        assert(ta[k2 - len0] == x);
    }
    lemma_search_order_unique(m0, ta, tb);
    assert(fa =~= fa.take(len0) + ta);
    assert(fb =~= fb.take(len0) + tb);
}

/// Whether a point is claimed depends only on its coordinates, the query
/// and the radius — never on its row position. Two instances whose rows
/// hold the same point therefore agree on that point's membership, which
/// makes the claimed set independent of input order.
pub proof fn lemma_match_is_order_free(
    ma: BinModel,
    mb: BinModel,
    q: Point3,
    radius: int,
    i: int,
    j: int,
)
    requires
        0 <= i < ma.points.len(),
        0 <= j < mb.points.len(),
        mb.points[j] == ma.points[i],
    ensures
        (dist2(mb.points[j], q) <= radius * radius) == (dist2(ma.points[i], q) <= radius
            * radius),
{
}

} // verus!
