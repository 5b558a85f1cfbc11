//! Column-wise reductions over a row-major matrix of integers: the small
//! helpers the grid setup is built from.

use vstd::prelude::*;
use crate::grid::lemma_seq_max_push;
use crate::grid::lemma_seq_min_push;
use crate::grid::seq_max;
use crate::grid::seq_min;

verus! {

/// Column `j` of a row-major matrix, as mathematical integers.
pub open spec fn axis_column(arr: Seq<Vec<i64>>, j: int) -> Seq<int> {
    Seq::new(arr.len(), |i: int| arr[i]@[j] as int)
}

/// Column-wise minimum: entry `j` of the result is the least value of
/// axis_column `j` over all rows.
pub fn min_along_axis0(arr: &Vec<Vec<i64>>) -> (out: Vec<i64>)
    requires
        arr@.len() >= 1,
        forall|i: int| 0 <= i < arr@.len() ==> (#[trigger] arr@[i])@.len() == arr@[0]@.len(),
    ensures
        out@.len() == arr@[0]@.len(),
        forall|j: int| 0 <= j < out@.len() ==> (#[trigger] out@[j]) as int == seq_min(
            axis_column(arr@, j)),
{
    let ncols = arr[0].len();
    let mut out: Vec<i64> = Vec::new();
    let mut j: usize = 0;
    while j < ncols
        invariant
            ncols == arr@[0]@.len(),
            arr@.len() >= 1,
            out@.len() == j,
            0 <= j <= ncols,
            forall|k: int| 0 <= k < j ==> (#[trigger] out@[k]) as int == seq_min(
                axis_column(arr@, k).take(1)),
        decreases ncols - j,
    {
        proof {
            assert(axis_column(arr@, j as int).take(1) =~= Seq::<int>::empty().push(
                arr@[0]@[j as int] as int));
        }
        out.push(arr[0][j]);
        j = j + 1;
    }
    let mut i: usize = 1;
    while i < arr.len()
        invariant
            1 <= i <= arr@.len(),
            ncols == arr@[0]@.len(),
            out@.len() == ncols,
            forall|t: int| 0 <= t < arr@.len() ==> (#[trigger] arr@[t])@.len() == ncols,
            forall|k: int| 0 <= k < ncols ==> (#[trigger] out@[k]) as int == seq_min(
                axis_column(arr@, k).take(i as int)),
        decreases arr@.len() - i,
    {
        let mut j: usize = 0;
        while j < ncols
            invariant
                1 <= i < arr@.len(),
                ncols == arr@[0]@.len(),
                out@.len() == ncols,
                0 <= j <= ncols,
                forall|t: int| 0 <= t < arr@.len() ==> (#[trigger] arr@[t])@.len() == ncols,
                forall|k: int| 0 <= k < j ==> (#[trigger] out@[k]) as int == seq_min(
                    axis_column(arr@, k).take(i + 1)),
                forall|k: int| j <= k < ncols ==> (#[trigger] out@[k]) as int == seq_min(
                    axis_column(arr@, k).take(i as int)),
            decreases ncols - j,
        {
            proof {
                assert(axis_column(arr@, j as int).take(i + 1) =~= axis_column(arr@, j as int).take(
                    i as int).push(arr@[i as int]@[j as int] as int));
                lemma_seq_min_push(axis_column(arr@, j as int).take(i as int),
                    arr@[i as int]@[j as int] as int);
            }
            if arr[i][j] < out[j] {
                out[j] = arr[i][j];
            }
            j = j + 1;
        }
        i = i + 1;
    }
    proof {
        assert forall|k: int|
            0 <= k < ncols implies (#[trigger] out@[k]) as int == seq_min(axis_column(arr@, k)) by {
            assert(axis_column(arr@, k).take(arr@.len() as int) =~= axis_column(arr@, k));
        }
    }
    out
}

/// Column-wise maximum over rows of machine integers.
pub fn max_along_axis0(arr: &Vec<Vec<i64>>) -> (out: Vec<i64>)
    requires
        arr@.len() >= 1,
        forall|i: int| 0 <= i < arr@.len() ==> (#[trigger] arr@[i])@.len() == arr@[0]@.len(),
    ensures
        out@.len() == arr@[0]@.len(),
        forall|j: int| 0 <= j < out@.len() ==> (#[trigger] out@[j]) as int == seq_max(
            axis_column(arr@, j)),
{
    max_along_axis0_i64(arr)
}

/// Column-wise maximum, the `i64` form the bin-shape computation uses.
pub fn max_along_axis0_i64(arr: &Vec<Vec<i64>>) -> (out: Vec<i64>)
    requires
        arr@.len() >= 1,
        forall|i: int| 0 <= i < arr@.len() ==> (#[trigger] arr@[i])@.len() == arr@[0]@.len(),
    ensures
        out@.len() == arr@[0]@.len(),
        forall|j: int| 0 <= j < out@.len() ==> (#[trigger] out@[j]) as int == seq_max(
            axis_column(arr@, j)),
{
    let ncols = arr[0].len();
    let mut out: Vec<i64> = Vec::new();
    let mut j: usize = 0;
    while j < ncols
        invariant
            ncols == arr@[0]@.len(),
            arr@.len() >= 1,
            out@.len() == j,
            0 <= j <= ncols,
            forall|k: int| 0 <= k < j ==> (#[trigger] out@[k]) as int == seq_max(
                axis_column(arr@, k).take(1)),
        decreases ncols - j,
    {
        proof {
            assert(axis_column(arr@, j as int).take(1) =~= Seq::<int>::empty().push(
                arr@[0]@[j as int] as int));
        }
        out.push(arr[0][j]);
        j = j + 1;
    }
    let mut i: usize = 1;
    while i < arr.len()
        invariant
            1 <= i <= arr@.len(),
            ncols == arr@[0]@.len(),
            out@.len() == ncols,
            forall|t: int| 0 <= t < arr@.len() ==> (#[trigger] arr@[t])@.len() == ncols,
            forall|k: int| 0 <= k < ncols ==> (#[trigger] out@[k]) as int == seq_max(
                axis_column(arr@, k).take(i as int)),
        decreases arr@.len() - i,
    {
        let mut j: usize = 0;
        while j < ncols
            invariant
                1 <= i < arr@.len(),
                ncols == arr@[0]@.len(),
                out@.len() == ncols,
                0 <= j <= ncols,
                forall|t: int| 0 <= t < arr@.len() ==> (#[trigger] arr@[t])@.len() == ncols,
                forall|k: int| 0 <= k < j ==> (#[trigger] out@[k]) as int == seq_max(
                    axis_column(arr@, k).take(i + 1)),
                forall|k: int| j <= k < ncols ==> (#[trigger] out@[k]) as int == seq_max(
                    axis_column(arr@, k).take(i as int)),
            decreases ncols - j,
        {
            proof {
                assert(axis_column(arr@, j as int).take(i + 1) =~= axis_column(arr@, j as int).take(
                    i as int).push(arr@[i as int]@[j as int] as int));
                lemma_seq_max_push(axis_column(arr@, j as int).take(i as int),
                    arr@[i as int]@[j as int] as int);
            }
            if arr[i][j] > out[j] {
                out[j] = arr[i][j];
            }
            j = j + 1;
        }
        i = i + 1;
    }
    proof {
        assert forall|k: int|
            0 <= k < ncols implies (#[trigger] out@[k]) as int == seq_max(axis_column(arr@, k)) by {
            assert(axis_column(arr@, k).take(arr@.len() as int) =~= axis_column(arr@, k));
        }
    }
    out
}

} // verus!
