//! Assembling a cost matrix from pairwise measurements delivered in blocks.
use vstd::prelude::*;
use crate::model::{matrix_of, is_square, INF};
use crate::types::Mode;

verus! {

/// An `n x n` matrix with zero on the diagonal and every other pair
/// unreachable.
pub fn unreachable_matrix(n: usize) -> (r: Vec<Vec<i64>>)
    ensures
        is_square(n as nat, matrix_of(&r)),
        forall|i: int, j: int|
            0 <= i < n && 0 <= j < n ==> #[trigger] matrix_of(&r)[i][j] == if i == j {
                0
            } else {
                INF
            },
{
    let mut r: Vec<Vec<i64>> = Vec::new();
    let mut i: usize = 0;
    while i < n
        invariant
            i <= n,
            r@.len() == i,
            forall|a: int| 0 <= a < i ==> #[trigger] r@[a]@.len() == n,
            forall|a: int, b: int|
                0 <= a < i && 0 <= b < n ==> #[trigger] r@[a]@[b] == if a == b {
                    0
                } else {
                    INF
                },
        decreases n - i,
    {
        let mut row: Vec<i64> = Vec::new();
        let mut j: usize = 0;
        while j < n
            invariant
                j <= n,
                i < n,
                row@.len() == j,
                forall|b: int| 0 <= b < j ==> #[trigger] row@[b] == if i == b {
                    0
                } else {
                    INF
                },
            decreases n - j,
        {
            if i == j {
                row.push(0);
            } else {
                row.push(INF);
            }
            j = j + 1;
        }
        r.push(row);
        i = i + 1;
    }
    r
}

/// Records a measured cost for the pair `i`, `j` in both directions.
pub fn record_pair(dist: &mut Vec<Vec<i64>>, i: usize, j: usize, cost: i64)
    requires
        i < old(dist)@.len(),
        j < old(dist)@.len(),
        is_square(old(dist)@.len() as nat, matrix_of(old(dist))),
    ensures
        final(dist)@.len() == old(dist)@.len(),
        is_square(old(dist)@.len() as nat, matrix_of(final(dist))),
        forall|a: int, b: int|
            0 <= a < old(dist)@.len() && 0 <= b < old(dist)@.len() ==> #[trigger] matrix_of(
                final(dist),
            )[a][b] == if (a == i && b == j) || (a == j && b == i) {
                cost
            } else {
                matrix_of(old(dist))[a][b]
            },
{
    let ghost m0 = matrix_of(dist);
    let mut row = dist[i].clone();
    assert(row@ =~= m0[i as int]);
    row.set(j, cost);
    dist.set(i, row);
    let ghost m1 = matrix_of(dist);
    assert(m1 =~= m0.update(i as int, m0[i as int].update(j as int, cost)));
    let mut row2 = dist[j].clone();
    assert(row2@ =~= m1[j as int]);
    row2.set(i, cost);
    dist.set(j, row2);
    assert(matrix_of(dist) =~= m1.update(j as int, m1[j as int].update(i as int, cost)));
}

/// The cost of one measured pair under `mode`: the distance in meters or the
/// duration in minutes, if that measurement is present.
pub fn pair_cost(mode: Mode, distance_meters: Option<i64>, duration_minutes: Option<i64>) -> (r:
    Option<i64>)
    ensures
        mode == Mode::Distance ==> r == distance_meters,
        mode == Mode::Time ==> r == duration_minutes,
{
    match mode {
        Mode::Distance => distance_meters,
        Mode::Time => duration_minutes,
    }
}

/// The starting indices of the blocks of at most `chunk` consecutive indices
/// that cover `[0, n)`: `0, chunk, 2 * chunk, ...` while below `n`.
pub fn block_starts(n: usize, chunk: usize) -> (r: Vec<usize>)
    requires
        chunk > 0,
    ensures
        forall|k: int| 0 <= k < r@.len() ==> #[trigger] r@[k] == k * chunk && r@[k] < n,
        n == 0 ==> r@.len() == 0,
        n > 0 ==> r@.len() >= 1 && r@[r@.len() - 1] + chunk >= n,
{
    let mut r: Vec<usize> = Vec::new();
    if n == 0 {
        return r;
    }
    let mut s: usize = 0;
    assert(r@.len() * chunk == 0) by (nonlinear_arith)
        requires
            r@.len() == 0,
    ;
    loop
        invariant
            chunk > 0,
            s < n,
            s == r@.len() * chunk,
            forall|a: int| 0 <= a < r@.len() ==> #[trigger] r@[a] == a * chunk && r@[a] < n,
        decreases n - s,
    {
        r.push(s);
        if n - s <= chunk {
            return r;
        }
        proof {
            assert(s + chunk == (r@.len()) * chunk) by (nonlinear_arith)
                requires
                    s == (r@.len() - 1) * chunk,
            ;
        }
        s = s + chunk;
    }
}

} // verus!
