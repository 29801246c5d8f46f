//! The cost model shared by both solvers: the cost matrix, routes and their
//! costs, and the saturating arithmetic that treats overflow as unreachable.
use vstd::prelude::*;

verus! {

/// The sentinel cost of an unreachable pair; any total that reaches it counts
/// as infinite.
pub const INF: i64 = i64::MAX;

/// Why a solve produced no route.
#[derive(Debug, Clone, Copy, PartialEq, Eq, Structural)]
pub enum SolveError {
    /// `n`, `start` or `end` out of range, or the matrix is not `n x n`.
    InvalidInput,
    /// Every candidate route has an infinite total cost.
    NoPathFound,
    /// The predecessor table did not lead back to the start.
    PathReconstructionFailed,
}

/// The matrix as a sequence of rows.
pub open spec fn matrix_of(dist: &Vec<Vec<i64>>) -> Seq<Seq<i64>> {
    Seq::new(dist@.len(), |i: int| dist@[i]@)
}

/// `dist` has `n` rows of `n` entries.
pub open spec fn is_square(n: nat, dist: Seq<Seq<i64>>) -> bool {
    &&& dist.len() == n
    &&& forall|i: int| 0 <= i < n ==> #[trigger] dist[i].len() == n
}

/// Whether `dist` has `n` rows of `n` entries each.
pub fn check_square(n: usize, dist: &Vec<Vec<i64>>) -> (r: bool)
    ensures
        r == is_square(n as nat, matrix_of(dist)),
{
    if dist.len() != n {
        return false;
    }
    let mut i: usize = 0;
    while i < n
        invariant
            dist@.len() == n,
            i <= n,
            forall|j: int| 0 <= j < i ==> #[trigger] matrix_of(dist)[j].len() == n,
        decreases n - i,
    {
        if dist[i].len() != n {
            assert(matrix_of(dist)[i as int].len() != n);
            return false;
        }
        i = i + 1;
    }
    true
}

/// No entry of the matrix is negative.
pub open spec fn costs_nonneg(dist: Seq<Seq<i64>>) -> bool {
    forall|i: int, j: int|
        0 <= i < dist.len() && 0 <= j < dist[i].len() ==> #[trigger] dist[i][j] >= 0
}

/// The inputs that a solve accepts.
pub open spec fn valid_input(n: usize, start: usize, end: usize, dist: Seq<Seq<i64>>) -> bool {
    &&& 1 <= n
    &&& start < n
    &&& end < n
    &&& is_square(n as nat, dist)
}

/// The cost of the edge from `u` to `v`.
pub open spec fn edge(dist: Seq<Seq<i64>>, u: usize, v: usize) -> int {
    dist[u as int][v as int] as int
}

/// The exact sum of the edge costs along `p`, as a mathematical integer.
pub open spec fn path_cost(dist: Seq<Seq<i64>>, p: Seq<usize>) -> int
    decreases p.len(),
{
    if p.len() <= 1 {
        0
    } else {
        path_cost(dist, p.drop_last()) + edge(dist, p[p.len() - 2], p[p.len() - 1])
    }
}

/// `p` is finite: its total stays below the sentinel.
pub open spec fn is_finite(dist: Seq<Seq<i64>>, p: Seq<usize>) -> bool {
    path_cost(dist, p) < INF
}

/// Every node of `p` is below `n`.
pub open spec fn nodes_below(n: nat, p: Seq<usize>) -> bool {
    forall|i: int| 0 <= i < p.len() ==> #[trigger] p[i] < n
}

/// `p` holds every index of `[0, n)` exactly once.
pub open spec fn visits_each_once(n: nat, p: Seq<usize>) -> bool {
    &&& p.len() == n
    &&& p.no_duplicates()
    &&& nodes_below(n, p)
    &&& forall|w: usize| w < n ==> #[trigger] p.contains(w)
}

/// A Hamiltonian path from `start` to `end`.
pub open spec fn is_ham_path(n: usize, start: usize, end: usize, p: Seq<usize>) -> bool {
    &&& 1 <= p.len()
    &&& visits_each_once(n as nat, p)
    &&& p[0] == start
    &&& p[p.len() - 1] == end
}

/// A Hamiltonian cycle through `start`, written with `start` at both ends.
pub open spec fn is_closed_tour(n: usize, start: usize, p: Seq<usize>) -> bool {
    &&& p.len() == n + 1
    &&& visits_each_once(n as nat, p.drop_last())
    &&& p[0] == start
    &&& p[p.len() - 1] == start
}

/// The routes the enumerator considers: Hamiltonian paths, or closed tours
/// when both endpoints are the same node of a graph with more than one node.
pub open spec fn is_route(n: usize, start: usize, end: usize, p: Seq<usize>) -> bool {
    if start == end && n > 1 {
        is_closed_tour(n, start, p)
    } else {
        is_ham_path(n, start, end, p)
    }
}

/// Some Hamiltonian path from `start` to `end` has a finite cost.
pub open spec fn has_finite_path(n: usize, start: usize, end: usize, dist: Seq<Seq<i64>>) -> bool {
    exists|q: Seq<usize>| #[trigger] is_ham_path(n, start, end, q) && is_finite(dist, q)
}

/// `p` is a Hamiltonian path of finite cost, and no Hamiltonian path costs less.
pub open spec fn is_optimal_path(
    n: usize,
    start: usize,
    end: usize,
    dist: Seq<Seq<i64>>,
    p: Seq<usize>,
) -> bool {
    &&& is_ham_path(n, start, end, p)
    &&& is_finite(dist, p)
    &&& forall|q: Seq<usize>| #[trigger]
        is_ham_path(n, start, end, q) ==> path_cost(dist, p) <= path_cost(dist, q)
}

/// Some route from `start` to `end` has a finite cost.
pub open spec fn has_finite_route(n: usize, start: usize, end: usize, dist: Seq<Seq<i64>>) -> bool {
    exists|q: Seq<usize>| #[trigger] is_route(n, start, end, q) && is_finite(dist, q)
}

/// `p` is a route of finite cost, and no route costs less.
pub open spec fn is_optimal_route(
    n: usize,
    start: usize,
    end: usize,
    dist: Seq<Seq<i64>>,
    p: Seq<usize>,
) -> bool {
    &&& is_route(n, start, end, p)
    &&& is_finite(dist, p)
    &&& forall|q: Seq<usize>| #[trigger]
        is_route(n, start, end, q) ==> path_cost(dist, p) <= path_cost(dist, q)
}

/// The cost of a total once it is capped at the sentinel.
pub open spec fn capped(x: int) -> int {
    if x < INF {
        x
    } else {
        INF as int
    }
}

/// Adds two non-negative costs; a sum that reaches the sentinel (including
/// any sum with an infinite operand, and any sum that would overflow) is the
/// sentinel.
pub fn add_cost(a: i64, b: i64) -> (r: i64)
    requires
        0 <= a,
        0 <= b,
    ensures
        r == capped(a + b),
{
    if a > INF - b {
        INF
    } else {
        a + b
    }
}

/// Appending a node adds the cost of the last edge.
pub proof fn lemma_cost_push(dist: Seq<Seq<i64>>, p: Seq<usize>, v: usize)
    requires
        p.len() >= 1,
    ensures
        path_cost(dist, p.push(v)) == path_cost(dist, p) + edge(dist, p.last(), v),
{
    assert(p.push(v).drop_last() =~= p);
}

/// Prepending a node adds the cost of the first edge.
pub proof fn lemma_cost_prepend(dist: Seq<Seq<i64>>, u: usize, p: Seq<usize>)
    requires
        p.len() >= 1,
    ensures
        path_cost(dist, seq![u] + p) == edge(dist, u, p[0]) + path_cost(dist, p),
    decreases p.len(),
{
    let up = seq![u] + p;
    if p.len() == 1 {
        assert(up.drop_last() =~= seq![u]);
        assert(path_cost(dist, seq![u]) == 0);
        assert(path_cost(dist, up) == edge(dist, u, p[0]));
    } else {
        lemma_cost_prepend(dist, u, p.drop_last());
        assert(up.drop_last() =~= seq![u] + p.drop_last());
        assert(up[up.len() - 2] == p[p.len() - 2]);
        assert(up[up.len() - 1] == p[p.len() - 1]);
        assert(path_cost(dist, up) == path_cost(dist, up.drop_last()) + edge(
            dist,
            p[p.len() - 2],
            p[p.len() - 1],
        ));
    }
}

/// With non-negative edges no prefix costs more than the whole path.
pub proof fn lemma_cost_prefix(dist: Seq<Seq<i64>>, p: Seq<usize>, k: int)
    requires
        costs_nonneg(dist),
        is_square(dist.len(), dist),
        nodes_below(dist.len(), p),
        1 <= k <= p.len(),
    ensures
        0 <= path_cost(dist, p.take(k)) <= path_cost(dist, p),
    decreases p.len(),
{
    if p.len() <= 1 {
        assert(p.take(k) =~= p);
    } else {
        let u = p[p.len() - 2];
        let v = p[p.len() - 1];
        assert(dist[u as int][v as int] >= 0);
        if k == p.len() {
            assert(p.take(k) =~= p);
            lemma_cost_prefix(dist, p.drop_last(), k - 1);
            assert(p.drop_last().take(k - 1) =~= p.drop_last());
        } else {
            lemma_cost_prefix(dist, p.drop_last(), k);
            assert(p.drop_last().take(k) =~= p.take(k));
        }
    }
}

/// With non-negative edges every single edge of a path is bounded by its cost.
pub proof fn lemma_edge_le_cost(dist: Seq<Seq<i64>>, p: Seq<usize>, i: int)
    requires
        costs_nonneg(dist),
        is_square(dist.len(), dist),
        nodes_below(dist.len(), p),
        0 <= i,
        i + 1 < p.len(),
    ensures
        edge(dist, p[i], p[i + 1]) <= path_cost(dist, p),
{
    let t = p.take(i + 2);
    lemma_cost_prefix(dist, p, i + 2);
    lemma_cost_prefix(dist, t, i + 1);
    assert(t.drop_last() =~= t.take(i + 1));
}

/// The capped cost of `p`: its exact total if that is finite, else the sentinel.
pub fn route_cost(dist: &Vec<Vec<i64>>, p: &Vec<usize>) -> (r: i64)
    requires
        is_square(dist@.len() as nat, matrix_of(dist)),
        costs_nonneg(matrix_of(dist)),
        nodes_below(dist@.len() as nat, p@),
    ensures
        r == capped(path_cost(matrix_of(dist), p@)),
{
    let ghost m = matrix_of(dist);
    if p.len() <= 1 {
        return 0;
    }
    let mut total: i64 = 0;
    let mut i: usize = 1;
    assert(p@.take(1).drop_last() =~= p@.take(0));
    while i < p.len()
        invariant
            1 <= i <= p.len(),
            m == matrix_of(dist),
            is_square(dist@.len() as nat, m),
            costs_nonneg(m),
            nodes_below(dist@.len() as nat, p@),
            0 <= total,
            total == capped(path_cost(m, p@.take(i as int))),
        decreases p.len() - i,
    {
        let u = p[i - 1];
        let v = p[i];
        assert(m[u as int] == dist@[u as int]@);
        let d = dist[u][v];
        assert(m[u as int][v as int] == d);
        proof {
            lemma_cost_push(m, p@.take(i as int), v);
            assert(p@.take(i as int).push(v) =~= p@.take(i + 1));
        }
        total = add_cost(total, d);
        i = i + 1;
    }
    assert(p@.take(i as int) =~= p@);
    total
}

} // verus!
