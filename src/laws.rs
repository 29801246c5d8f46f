//! Properties that relate the two solvers and their results.
use vstd::prelude::*;
use crate::model::{
    costs_nonneg, has_finite_path, has_finite_route, is_finite, is_ham_path,
    is_optimal_path, is_optimal_route, is_route, lemma_cost_prepend, lemma_edge_le_cost,
    path_cost, valid_input, INF,
};

verus! {

/// The matrix is symmetric: each pair costs the same in both directions.
pub open spec fn is_symmetric(n: nat, dist: Seq<Seq<i64>>) -> bool {
    forall|i: int, j: int| 0 <= i < n && 0 <= j < n ==> #[trigger] dist[i][j] == dist[j][i]
}

/// When the endpoints differ (or the graph has a single node), the dynamic
/// program and the enumerator agree: both find a route exactly when a finite
/// Hamiltonian path exists, and their optimal routes cost the same.
pub proof fn lemma_solvers_agree(
    n: usize,
    start: usize,
    end: usize,
    dist: Seq<Seq<i64>>,
    p: Seq<usize>,
    q: Seq<usize>,
)
    requires
        valid_input(n, start, end, dist),
        start != end || n == 1,
    ensures
        has_finite_path(n, start, end, dist) == has_finite_route(n, start, end, dist),
        is_optimal_path(n, start, end, dist, p) && is_optimal_route(n, start, end, dist, q)
            ==> path_cost(dist, p) == path_cost(dist, q),
{
    assert forall|x: Seq<usize>| is_route(n, start, end, x) == is_ham_path(n, start, end, x) by {}
    if has_finite_path(n, start, end, dist) {
        let x = choose|x: Seq<usize>| #[trigger] is_ham_path(n, start, end, x) && is_finite(dist, x);
        assert(is_route(n, start, end, x));
    }
    if has_finite_route(n, start, end, dist) {
        let x = choose|x: Seq<usize>| #[trigger] is_route(n, start, end, x) && is_finite(dist, x);
        assert(is_ham_path(n, start, end, x));
    }
    if is_optimal_path(n, start, end, dist, p) && is_optimal_route(n, start, end, dist, q) {
        assert(is_route(n, start, end, p));
        assert(is_ham_path(n, start, end, q));
    }
}

/// Any two optimal Hamiltonian paths for the same inputs cost the same, so
/// solving twice gives the same total cost.
pub proof fn lemma_optimal_path_cost_unique(
    n: usize,
    start: usize,
    end: usize,
    dist: Seq<Seq<i64>>,
    p1: Seq<usize>,
    p2: Seq<usize>,
)
    requires
        is_optimal_path(n, start, end, dist, p1),
        is_optimal_path(n, start, end, dist, p2),
    ensures
        path_cost(dist, p1) == path_cost(dist, p2),
{
    assert(is_ham_path(n, start, end, p1));
    assert(is_ham_path(n, start, end, p2));
}

/// Any two optimal enumerated routes for the same inputs cost the same.
pub proof fn lemma_optimal_route_cost_unique(
    n: usize,
    start: usize,
    end: usize,
    dist: Seq<Seq<i64>>,
    p1: Seq<usize>,
    p2: Seq<usize>,
)
    requires
        is_optimal_route(n, start, end, dist, p1),
        is_optimal_route(n, start, end, dist, p2),
    ensures
        path_cost(dist, p1) == path_cost(dist, p2),
{
    assert(is_route(n, start, end, p1));
    assert(is_route(n, start, end, p2));
}

/// On a symmetric matrix a path and its reversal cost the same.
pub proof fn lemma_reverse_cost(n: nat, dist: Seq<Seq<i64>>, p: Seq<usize>)
    requires
        is_symmetric(n, dist),
        forall|i: int| 0 <= i < p.len() ==> #[trigger] p[i] < n,
    ensures
        path_cost(dist, p.reverse()) == path_cost(dist, p),
    decreases p.len(),
{
    if p.len() >= 2 {
        let pre = p.drop_last();
        lemma_reverse_cost(n, dist, pre);
        assert(p.reverse() =~= seq![p.last()] + pre.reverse());
        lemma_cost_prepend(dist, p.last(), pre.reverse());
        let a = p[p.len() - 2];
        let b = p[p.len() - 1];
        assert(pre.reverse()[0] == a);
        assert(dist[a as int][b as int] == dist[b as int][a as int]);
    } else {
        assert(p.reverse() =~= p);
    }
}

/// The reversal of a Hamiltonian path from `start` to `end` is a Hamiltonian
/// path from `end` to `start`.
pub proof fn lemma_reverse_ham(n: usize, start: usize, end: usize, p: Seq<usize>)
    requires
        is_ham_path(n, start, end, p),
    ensures
        is_ham_path(n, end, start, p.reverse()),
{
    let r = p.reverse();
    assert forall|i: int, j: int| 0 <= i < j < r.len() implies r[i] != r[j] by {
        assert(p[p.len() - 1 - i] != p[p.len() - 1 - j]);
    }
    assert forall|i: int| 0 <= i < r.len() implies #[trigger] r[i] < n by {
        assert(p[p.len() - 1 - i] < n);
    }
    assert forall|w: usize| w < n implies #[trigger] r.contains(w) by {
        assert(p.contains(w));
        let i = choose|i: int| 0 <= i < p.len() && p[i] == w;
        assert(r[p.len() - 1 - i] == w);
    }
}

/// On a symmetric matrix, reversing an optimal path from `start` to `end`
/// gives an optimal path from `end` to `start` of the same cost.
pub proof fn lemma_symmetric_reversal(
    n: usize,
    start: usize,
    end: usize,
    dist: Seq<Seq<i64>>,
    p: Seq<usize>,
)
    requires
        is_symmetric(n as nat, dist),
        is_optimal_path(n, start, end, dist, p),
    ensures
        is_optimal_path(n, end, start, dist, p.reverse()),
        path_cost(dist, p.reverse()) == path_cost(dist, p),
{
    lemma_reverse_ham(n, start, end, p);
    lemma_reverse_cost(n as nat, dist, p);
    assert forall|q: Seq<usize>| #[trigger] is_ham_path(n, end, start, q) implies path_cost(
        dist,
        p.reverse(),
    ) <= path_cost(dist, q) by {
        lemma_reverse_ham(n, end, start, q);
        lemma_reverse_cost(n as nat, dist, q);
    }
}

/// A node other than the endpoints that no other node can reach leaves no
/// route of finite cost, for either solver.
pub proof fn lemma_unreachable_node(
    n: usize,
    start: usize,
    end: usize,
    dist: Seq<Seq<i64>>,
    x: usize,
)
    requires
        valid_input(n, start, end, dist),
        costs_nonneg(dist),
        x < n,
        x != start,
        x != end,
        forall|u: int| 0 <= u < n && u != x ==> #[trigger] dist[u][x as int] == INF,
    ensures
        !has_finite_path(n, start, end, dist),
        !has_finite_route(n, start, end, dist),
{
    assert forall|q: Seq<usize>| #[trigger] is_ham_path(n, start, end, q) implies !is_finite(dist, q) by {
        lemma_unreachable_blocks(n, start, end, dist, x, q);
    }
    assert forall|q: Seq<usize>| #[trigger] is_route(n, start, end, q) implies !is_finite(dist, q) by {
        lemma_unreachable_blocks(n, start, end, dist, x, q);
    }
}

proof fn lemma_unreachable_blocks(
    n: usize,
    start: usize,
    end: usize,
    dist: Seq<Seq<i64>>,
    x: usize,
    q: Seq<usize>,
)
    requires
        valid_input(n, start, end, dist),
        costs_nonneg(dist),
        x < n,
        x != start,
        x != end,
        forall|u: int| 0 <= u < n && u != x ==> #[trigger] dist[u][x as int] == INF,
        is_route(n, start, end, q) || is_ham_path(n, start, end, q),
    ensures
        !is_finite(dist, q),
{
    let body = if is_ham_path(n, start, end, q) {
        q
    } else if start == end && n > 1 {
        q.drop_last()
    } else {
        q
    };
    assert(body.contains(x));
    let i = choose|i: int| 0 <= i < body.len() && body[i] == x;
    assert(i != 0);
    assert(body[i - 1] != body[i]);
    assert(q[i - 1] == body[i - 1] && q[i] == x);
    assert(body[i - 1] < n);
    assert forall|k: int| 0 <= k < q.len() implies #[trigger] q[k] < dist.len() by {
        if k < body.len() {
            assert(body[k] == q[k]);
        } else {
            assert(q[k] == start);
        }
    }
    lemma_edge_le_cost(dist, q, i - 1);
}

} // verus!
