//! Stable ordering of point indices by flattened bin key.
//!
//! The construction needs a permutation of `0 .. n` that sorts the points by
//! bin key while keeping the original relative order of points with equal
//! keys. Sorting `(key, index)` pairs by strict lexicographic order yields
//! exactly that permutation; an insertion sort never swaps pairs with equal
//! keys, so equal-key indices stay in their original ascending order.

use vstd::prelude::*;

verus! {

#[derive(Clone, Copy, Debug)]
pub struct KeyIdx {
    pub key: usize,
    pub idx: usize,
}

/// Strict lexicographic order on `(key, idx)` pairs.
pub open spec fn pair_lt(a: KeyIdx, b: KeyIdx) -> bool {
    a.key < b.key || (a.key == b.key && a.idx < b.idx)
}

/// The sorted permutation: entry `s` is the original index of the point that
/// comes `s`-th in bin-key order (ties kept in original order).
pub fn stable_order(keys: &Vec<usize>) -> (perm: Vec<usize>)
    ensures
        perm@.len() == keys@.len(),
        forall|s: int| 0 <= s < perm@.len() ==> #[trigger] perm@[s] < keys@.len(),
        forall|s1: int, s2: int|
            0 <= s1 < perm@.len() && 0 <= s2 < perm@.len() && s1 != s2 ==> perm@[s1] != perm@[s2],
        forall|s1: int, s2: int|
            0 <= s1 < s2 < perm@.len() ==> (keys@[perm@[s1] as int] < keys@[perm@[s2] as int]
                || (keys@[perm@[s1] as int] == keys@[perm@[s2] as int] && perm@[s1] < perm@[s2])),
{
    let n = keys.len();
    let mut a: Vec<KeyIdx> = Vec::new();
    let mut i: usize = 0;
    while i < n
        invariant
            0 <= i <= n,
            n == keys@.len(),
            a@.len() == i,
            forall|k: int| 0 <= k < i ==> #[trigger] a@[k].idx == k,
            forall|k: int| 0 <= k < i ==> #[trigger] a@[k].key == keys@[k],
        decreases n - i,
    {
        a.push(KeyIdx { key: keys[i], idx: i });
        i = i + 1;
    }
    let mut i: usize = 1;
    while i < n
        invariant
            n == keys@.len(),
            a@.len() == n,
            forall|k: int| 0 <= k < n ==> #[trigger] a@[k].idx < n,
            forall|k: int| 0 <= k < n ==> #[trigger] a@[k].key == keys@[a@[k].idx as int],
            forall|k1: int, k2: int|
                0 <= k1 < n && 0 <= k2 < n && k1 != k2 ==> a@[k1].idx != a@[k2].idx,
            forall|k1: int, k2: int|
                0 <= k1 < k2 < n && a@[k1].key == a@[k2].key ==> a@[k1].idx < a@[k2].idx,
            forall|k1: int, k2: int| 0 <= k1 < k2 < i && k2 < n ==> pair_lt(a@[k1], a@[k2]),
        decreases n - i,
    {
        let mut j: usize = i;
        while j > 0 && (a[j - 1].key > a[j].key || (a[j - 1].key == a[j].key && a[j - 1].idx
            > a[j].idx))
            invariant
                0 <= j <= i < n,
                n == keys@.len(),
                a@.len() == n,
                forall|k: int| 0 <= k < n ==> #[trigger] a@[k].idx < n,
                forall|k: int| 0 <= k < n ==> #[trigger] a@[k].key == keys@[a@[k].idx as int],
                forall|k1: int, k2: int|
                    0 <= k1 < n && 0 <= k2 < n && k1 != k2 ==> a@[k1].idx != a@[k2].idx,
                forall|k1: int, k2: int|
                    0 <= k1 < k2 < n && a@[k1].key == a@[k2].key ==> a@[k1].idx < a@[k2].idx,
                forall|k1: int, k2: int|
                    0 <= k1 < k2 <= i && k2 != j ==> pair_lt(a@[k1], a@[k2]),
            decreases j,
        {
            let u = a[j - 1];
            let v = a[j];
            a[j - 1] = v;
            a[j] = u;
            j = j - 1;
        }
        proof {
            assert forall|k1: int, k2: int| 0 <= k1 < k2 <= i implies pair_lt(a@[k1], a@[k2]) by {
                if k2 == j {
                    assert(a@[j - 1].idx != a@[j as int].idx);
                    assert(pair_lt(a@[j - 1], a@[j as int]));
                    if k1 < j - 1 {
                        assert(pair_lt(a@[k1], a@[j - 1]));
                    }
                }
            }
        }
        i = i + 1;
    }
    let mut perm: Vec<usize> = Vec::new();
    let mut s: usize = 0;
    while s < n
        invariant
            0 <= s <= n,
            n == keys@.len(),
            a@.len() == n,
            perm@.len() == s,
            forall|k: int| 0 <= k < n ==> #[trigger] a@[k].idx < n,
            forall|k: int| 0 <= k < n ==> #[trigger] a@[k].key == keys@[a@[k].idx as int],
            forall|k1: int, k2: int|
                0 <= k1 < n && 0 <= k2 < n && k1 != k2 ==> a@[k1].idx != a@[k2].idx,
            forall|k1: int, k2: int| 0 <= k1 < k2 < n ==> pair_lt(a@[k1], a@[k2]),
            forall|k: int| 0 <= k < s ==> #[trigger] perm@[k] == a@[k].idx,
        decreases n - s,
    {
        perm.push(a[s].idx);
        s = s + 1;
    }
    proof {
        assert forall|s1: int, s2: int| 0 <= s1 < s2 < perm@.len() implies (keys@[perm@[s1] as int]
            < keys@[perm@[s2] as int] || (keys@[perm@[s1] as int] == keys@[perm@[s2] as int]
            && perm@[s1] < perm@[s2])) by {
            assert(pair_lt(a@[s1], a@[s2]));
            assert(a@[s1].key == keys@[a@[s1].idx as int]);
            assert(a@[s2].key == keys@[a@[s2].idx as int]);
        }
    }
    perm
}

} // verus!
