//! The exhaustive solver: every ordering of the intermediate nodes is costed,
//! one partition of the orderings per choice of the first intermediate node,
//! the partitions evaluated in parallel and reduced to the cheapest.
use vstd::prelude::*;
use itertools::Itertools;
use rayon::iter::IndexedParallelIterator;
use rayon::iter::IntoParallelRefIterator;
use rayon::iter::ParallelIterator;
use crate::model::{
    capped, check_square, costs_nonneg, lemma_cost_prefix, has_finite_route, is_finite,
    is_optimal_route, is_route, matrix_of, nodes_below, path_cost, route_cost, valid_input,
    visits_each_once, SolveError, INF,
};


verus! {

/// `x` holds the items of `items`, each once, in some order.
pub open spec fn is_arrangement(x: Seq<usize>, items: Seq<usize>) -> bool {
    &&& x.len() == items.len()
    &&& x.no_duplicates()
    &&& forall|e: usize| x.contains(e) <==> items.contains(e)
}

/// What closes a route after the intermediate nodes: the end node, except in
/// the one-node graph, whose only route is the start itself.
pub open spec fn closing(n: usize, end: usize) -> Seq<usize> {
    if n == 1 {
        Seq::<usize>::empty()
    } else {
        seq![end]
    }
}

/// `q` begins with `prefix`.
pub open spec fn extends(q: Seq<usize>, prefix: Seq<usize>) -> bool {
    prefix.len() <= q.len() && q.take(prefix.len() as int) == prefix
}

/// `prefix` is a valid beginning of a route and `rest` holds, once each, the
/// nodes still to be placed before the closing node.
pub open spec fn completion_setup(
    n: usize,
    start: usize,
    end: usize,
    prefix: Seq<usize>,
    rest: Seq<usize>,
) -> bool {
    &&& 1 <= prefix.len()
    &&& prefix[0] == start
    &&& prefix.no_duplicates()
    &&& nodes_below(n as nat, prefix)
    &&& (start != end ==> !prefix.contains(end))
    &&& (n == 1 ==> prefix.len() == 1)
    &&& rest.no_duplicates()
    &&& forall|x: usize| #[trigger]
        rest.contains(x) <==> (x < n && !prefix.contains(x) && x != end)
}

/// `r` holds the least capped cost over the routes that begin with `prefix`,
/// and one such route of that cost when it is finite.
pub open spec fn completion_result(
    n: usize,
    start: usize,
    end: usize,
    dist: Seq<Seq<i64>>,
    prefix: Seq<usize>,
    r: (i64, Option<Vec<usize>>),
) -> bool {
    &&& 0 <= r.0 <= INF
    &&& (r.1 is Some <==> r.0 < INF)
    &&& (r.1 is Some ==> {
        let p = r.1->Some_0@;
        is_route(n, start, end, p) && extends(p, prefix) && path_cost(dist, p) == r.0
    })
    &&& forall|q: Seq<usize>| #[trigger]
        is_route(n, start, end, q) && extends(q, prefix) ==> r.0 <= capped(path_cost(dist, q))
}

/// Two duplicate-free sequences with the same items have the same length.
pub proof fn lemma_same_items_len(a: Seq<usize>, b: Seq<usize>)
    requires
        a.no_duplicates(),
        b.no_duplicates(),
        forall|e: usize| a.contains(e) <==> b.contains(e),
    ensures
        a.len() == b.len(),
{
    a.unique_seq_to_set();
    b.unique_seq_to_set();
    assert(a.to_set() =~= b.to_set());
}

/// A duplicate-free sequence of exactly the nodes below `n` has length `n`.
proof fn lemma_all_nodes_len(a: Seq<usize>, n: usize)
    requires
        a.no_duplicates(),
        forall|e: usize| a.contains(e) <==> e < n,
    ensures
        a.len() == n,
{
    let r = Seq::new(n as nat, |i: int| i as usize);
    assert forall|e: usize| r.contains(e) <==> e < n by {
        if e < n {
            assert(r[e as int] == e);
        }
    }
    lemma_same_items_len(a, r);
}

/// A prefix followed by an arrangement of the remaining nodes and the
/// closing node is a route.
proof fn lemma_candidate_route(
    n: usize,
    start: usize,
    end: usize,
    prefix: Seq<usize>,
    rest: Seq<usize>,
    perm: Seq<usize>,
)
    requires
        1 <= n,
        start < n,
        end < n,
        completion_setup(n, start, end, prefix, rest),
        is_arrangement(perm, rest),
    ensures
        is_route(n, start, end, prefix + perm + closing(n, end)),
        extends(prefix + perm + closing(n, end), prefix),
{
    let body = prefix + perm;
    let p = body + closing(n, end);
    assert(p.take(prefix.len() as int) =~= prefix);
    assert forall|e: usize| #[trigger] body.contains(e) <==> (prefix.contains(e) || perm.contains(e)) by {
        if body.contains(e) {
            let i = choose|i: int| 0 <= i < body.len() && body[i] == e;
            if i >= prefix.len() {
                assert(perm[i - prefix.len()] == e);
            }
        }
        if perm.contains(e) {
            let i = choose|i: int| 0 <= i < perm.len() && perm[i] == e;
            assert(body[prefix.len() + i] == e);
        }
        if prefix.contains(e) {
            let i = choose|i: int| 0 <= i < prefix.len() && prefix[i] == e;
            assert(body[i] == e);
        }
    }
    assert forall|i: int, j: int| 0 <= i < j < body.len() implies body[i] != body[j] by {
        if j < prefix.len() {
        } else if i >= prefix.len() {
            assert(perm[i - prefix.len()] != perm[j - prefix.len()]);
        } else {
            assert(perm.contains(perm[j - prefix.len()]));
            assert(prefix.contains(prefix[i]));
        }
    }
    assert forall|i: int| 0 <= i < body.len() implies body[i] < n by {
        if i >= prefix.len() {
            assert(perm.contains(perm[i - prefix.len()]));
        }
    }
    if n == 1 {
        assert(p =~= body);
        if perm.len() > 0 {
            assert(perm.contains(perm[0]));
        }
        assert(body =~= prefix);
        assert(prefix[0] == start);
        assert forall|w: usize| w < n implies p.contains(w) by {
            assert(p[0] == w);
        }
    } else if start == end {
        assert(p.drop_last() =~= body);
        assert(prefix.contains(start));
        assert forall|e: usize| body.contains(e) <==> e < n by {
            if body.contains(e) {
                let i = choose|i: int| 0 <= i < body.len() && body[i] == e;
            }
        }
        lemma_all_nodes_len(body, n);
    } else {
        assert forall|e: usize| #[trigger] p.contains(e) <==> e < n by {
            if p.contains(e) {
                let i = choose|i: int| 0 <= i < p.len() && p[i] == e;
                if i < body.len() {
                    assert(body.contains(e));
                }
            }
            if e < n && e != end {
                assert(body.contains(e));
                let i = choose|i: int| 0 <= i < body.len() && body[i] == e;
                assert(p[i] == e);
            }
            if e == end {
                assert(p[p.len() - 1] == e);
            }
        }
        assert forall|i: int, j: int| 0 <= i < j < p.len() implies p[i] != p[j] by {
            if j == p.len() - 1 {
                assert(body.contains(body[i]));
            } else {
                assert(body[i] != body[j]);
            }
        }
        lemma_all_nodes_len(p, n);
    }
}

/// Every route that begins with `prefix` is the prefix, an arrangement of
/// the remaining nodes, and the closing node.
proof fn lemma_route_split(
    n: usize,
    start: usize,
    end: usize,
    prefix: Seq<usize>,
    rest: Seq<usize>,
    q: Seq<usize>,
)
    requires
        1 <= n,
        start < n,
        end < n,
        completion_setup(n, start, end, prefix, rest),
        is_route(n, start, end, q),
        extends(q, prefix),
    ensures
        prefix.len() + closing(n, end).len() <= q.len(),
        is_arrangement(
            q.subrange(prefix.len() as int, q.len() - closing(n, end).len()),
            rest,
        ),
        q == prefix + q.subrange(prefix.len() as int, q.len() - closing(n, end).len()) + closing(
            n,
            end,
        ),
{
    let cl = closing(n, end);
    let body = if start == end && n > 1 {
        q.drop_last()
    } else {
        q
    };
    assert(visits_each_once(n as nat, body));
    let pl = prefix.len() as int;
    if n > 1 && start != end {
        assert(q[0] == start);
        assert(q[q.len() - 1] == end);
        if pl == q.len() {
            assert(q.take(pl) =~= q);
            assert(prefix[q.len() - 1] == end);
        }
    }
    if n > 1 && start == end {
        if pl == q.len() {
            assert(prefix[q.len() - 1] == prefix[0]);
        }
    }
    if n == 1 {
        assert(q.len() == 1);
    }
    assert(pl + cl.len() <= q.len());
    let mid = q.subrange(pl, q.len() - cl.len());
    assert(q =~= prefix + mid + cl) by {
        assert forall|i: int| 0 <= i < pl implies q[i] == prefix[i] by {
            assert(q.take(pl)[i] == q[i]);
        }
        if n > 1 {
            assert(cl[0] == end);
        }
    }
    assert forall|i: int| 0 <= i < mid.len() implies #[trigger] mid[i] == body[pl + i] by {}
    assert forall|i: int, j: int| 0 <= i < j < mid.len() implies mid[i] != mid[j] by {
        assert(body[pl + i] != body[pl + j]);
    }
    assert forall|e: usize| mid.contains(e) <==> rest.contains(e) by {
        if mid.contains(e) {
            let i = choose|i: int| 0 <= i < mid.len() && mid[i] == e;
            assert(body[pl + i] == e);
            assert(body.contains(e));
            if prefix.contains(e) {
                let k = choose|k: int| 0 <= k < pl && prefix[k] == e;
                assert(body[k] == prefix[k]);
            }
            if e == end {
                if n > 1 && start != end {
                    assert(q[q.len() - 1] == end);
                } else {
                    assert(body[0] == start);
                }
            }
        }
        if rest.contains(e) {
            assert(body.contains(e));
            let i = choose|i: int| 0 <= i < body.len() && body[i] == e;
            if i < pl {
                assert(prefix[i] == e);
            }
            assert(mid[i - pl] == e);
        }
    }
    lemma_same_items_len(mid, rest);
}

/// Relies on itertools' `Itertools::permutations`, taken with `k` equal to
/// the number of items: every ordering of the items, each once; for no items,
/// the single empty ordering.
#[verifier::external_body]
fn orderings(items: &Vec<usize>) -> (r: Vec<Vec<usize>>)
    requires
        items@.no_duplicates(),
    ensures
        forall|i: int| 0 <= i < r@.len() ==> is_arrangement(#[trigger] r@[i]@, items@),
        forall|x: Seq<usize>| #[trigger]
            is_arrangement(x, items@) ==> exists|i: int| 0 <= i < r@.len() && r@[i]@ == x,
{
    items.iter().copied().permutations(items.len()).collect()
}

/// `prefix`, then `middle`, then `end` when `close` holds.
fn concat_route(prefix: &Vec<usize>, middle: &Vec<usize>, close: bool, end: usize) -> (r: Vec<
    usize,
>)
    ensures
        r@ == prefix@ + middle@ + if close {
            seq![end]
        } else {
            Seq::<usize>::empty()
        },
{
    let mut r: Vec<usize> = Vec::new();
    let mut i: usize = 0;
    while i < prefix.len()
        invariant
            i <= prefix.len(),
            r@ == prefix@.take(i as int),
        decreases prefix.len() - i,
    {
        r.push(prefix[i]);
        i = i + 1;
        assert(r@ =~= prefix@.take(i as int));
    }
    let mut j: usize = 0;
    while j < middle.len()
        invariant
            j <= middle.len(),
            r@ == prefix@ + middle@.take(j as int),
        decreases middle.len() - j,
    {
        r.push(middle[j]);
        j = j + 1;
        assert(r@ =~= prefix@ + middle@.take(j as int));
    }
    assert(middle@.take(j as int) =~= middle@);
    if close {
        r.push(end);
    }
    assert(r@ =~= prefix@ + middle@ + if close {
        seq![end]
    } else {
        Seq::<usize>::empty()
    });
    r
}

/// The cheapest route that begins with `prefix` and then visits `rest` in
/// some order before the closing node.
pub fn best_completion(
    n: usize,
    start: usize,
    end: usize,
    dist: &Vec<Vec<i64>>,
    prefix: &Vec<usize>,
    rest: &Vec<usize>,
) -> (r: (i64, Option<Vec<usize>>))
    requires
        valid_input(n, start, end, matrix_of(dist)),
        costs_nonneg(matrix_of(dist)),
        completion_setup(n, start, end, prefix@, rest@),
    ensures
        completion_result(n, start, end, matrix_of(dist), prefix@, r),
{
    let ghost g = matrix_of(dist);
    let perms = orderings(rest);
    let close = n != 1;
    let mut best: i64 = INF;
    let mut best_path: Option<Vec<usize>> = None;
    let mut i: usize = 0;
    while i < perms.len()
        invariant
            g == matrix_of(dist),
            valid_input(n, start, end, g),
            costs_nonneg(g),
            completion_setup(n, start, end, prefix@, rest@),
            close == (n != 1),
            i <= perms@.len(),
            forall|k: int| 0 <= k < perms@.len() ==> is_arrangement(#[trigger] perms@[k]@, rest@),
            0 <= best <= INF,
            best_path is Some <==> best < INF,
            best_path is Some ==> {
                let p = best_path->Some_0@;
                is_route(n, start, end, p) && extends(p, prefix@) && path_cost(g, p) == best
            },
            forall|k: int|
                0 <= k < i ==> best <= capped(
                    path_cost(g, prefix@ + (#[trigger] perms@[k])@ + closing(n, end)),
                ),
        decreases perms@.len() - i,
    {
        let cand = concat_route(prefix, &perms[i], close, end);
        proof {
            assert(cand@ == prefix@ + perms@[i as int]@ + closing(n, end));
            lemma_candidate_route(n, start, end, prefix@, rest@, perms@[i as int]@);
            assert forall|k: int| 0 <= k < cand@.len() implies cand@[k] < dist@.len() by {
                if start == end && n > 1 && k < cand@.len() - 1 {
                    assert(cand@.drop_last()[k] == cand@[k]);
                }
            }
        }
        let c = route_cost(dist, &cand);
        proof {
            lemma_cost_prefix(g, cand@, cand@.len() as int);
            assert(cand@.take(cand@.len() as int) =~= cand@);
        }
        if c < best {
            best = c;
            best_path = Some(cand);
        }
        i = i + 1;
    }
    proof {
        assert forall|q: Seq<usize>| #[trigger]
            is_route(n, start, end, q) && extends(q, prefix@) implies best <= capped(
            path_cost(g, q),
        ) by {
            lemma_route_split(n, start, end, prefix@, rest@, q);
            let mid = q.subrange(prefix@.len() as int, q.len() - closing(n, end).len());
            let k = choose|k: int| 0 <= k < perms@.len() && perms@[k]@ == mid;
            assert(best <= capped(path_cost(g, prefix@ + perms@[k]@ + closing(n, end))));
        }
    }
    (best, best_path)
}

/// The nodes below `n` other than `a`, `b` and `c`, in increasing order.
pub fn nodes_except(n: usize, a: usize, b: usize, c: usize) -> (r: Vec<usize>)
    ensures
        r@.no_duplicates(),
        forall|x: usize| #[trigger] r@.contains(x) <==> (x < n && x != a && x != b && x != c),
{
    let mut r: Vec<usize> = Vec::new();
    let mut i: usize = 0;
    while i < n
        invariant
            i <= n,
            r@.no_duplicates(),
            forall|k: int| 0 <= k < r@.len() ==> #[trigger] r@[k] < i,
            forall|x: usize| #[trigger] r@.contains(x) <==> (x < i && x != a && x != b && x != c),
        decreases n - i,
    {
        if i != a && i != b && i != c {
            let ghost before = r@;
            r.push(i);
            proof {
                assert forall|x: usize| #[trigger] r@.contains(x) <==> (x < i + 1 && x != a && x
                    != b && x != c) by {
                    if x == i {
                        assert(r@[r@.len() - 1] == x);
                    }
                    if r@.contains(x) && x != i {
                        let k = choose|k: int| 0 <= k < r@.len() && r@[k] == x;
                        assert(before[k] == x);
                    }
                    if before.contains(x) {
                        let k = choose|k: int| 0 <= k < before.len() && before[k] == x;
                        assert(r@[k] == x);
                    }
                }
            }
        }
        i = i + 1;
    }
    r
}

/// The cheapest route whose first step leaves `start` for `first`.
pub fn best_through(n: usize, start: usize, end: usize, dist: &Vec<Vec<i64>>, first: usize) -> (r: (
    i64,
    Option<Vec<usize>>,
))
    requires
        valid_input(n, start, end, matrix_of(dist)),
        costs_nonneg(matrix_of(dist)),
        first < n,
        first != start,
        first != end,
    ensures
        completion_result(n, start, end, matrix_of(dist), seq![start, first], r),
{
    let prefix: Vec<usize> = vec![start, first];
    let rest = nodes_except(n, start, end, first);
    proof {
        assert(prefix@ =~= seq![start, first]);
        assert forall|x: usize| #[trigger] prefix@.contains(x) <==> (x == start || x == first) by {
            if x == first {
                assert(prefix@[1] == x);
            }
            if x == start {
                assert(prefix@[0] == x);
            }
        }
    }
    best_completion(n, start, end, dist, &prefix, &rest)
}

/// Relies on rayon's `par_iter` over a slice with `map` and
/// `collect_into_vec`: the result holds, in the order of `firsts`, the value
/// of `best_through` on each of them.
#[verifier::external_body]
fn best_through_each(n: usize, start: usize, end: usize, dist: &Vec<Vec<i64>>, firsts: &Vec<usize>) -> (r: Vec<(i64, Option<Vec<usize>>)>)
    requires
        valid_input(n, start, end, matrix_of(dist)),
        costs_nonneg(matrix_of(dist)),
        forall|i: int| 0 <= i < firsts@.len() ==> #[trigger] firsts@[i] < n && firsts@[i] != start && firsts@[i] != end,
    ensures
        r@.len() == firsts@.len(),
        forall|i: int| 0 <= i < r@.len() ==> completion_result(n, start, end, matrix_of(dist), seq![start, firsts@[i]], #[trigger] r@[i]),
{
    let mut out = Vec::new();
    firsts.par_iter().map(|&f| best_through(n, start, end, dist, f)).collect_into_vec(&mut out);
    out
}

/// Computes a cheapest route from `start` to `end` over the `n x n` cost
/// matrix `dist` by costing every ordering of the intermediate nodes. When
/// `start == end` in a graph of more than one node the routes are closed
/// tours that return to `start`.
pub fn brute_force(n: usize, start: usize, end: usize, dist: &Vec<Vec<i64>>) -> (r: Result<
    Vec<usize>,
    SolveError,
>)
    requires
        costs_nonneg(matrix_of(dist)),
    ensures
        r == Err::<Vec<usize>, SolveError>(SolveError::InvalidInput) <==> !valid_input(
            n,
            start,
            end,
            matrix_of(dist),
        ),
        r is Ok ==> is_optimal_route(n, start, end, matrix_of(dist), r->Ok_0@),
        r == Err::<Vec<usize>, SolveError>(SolveError::NoPathFound) <==> (valid_input(
            n,
            start,
            end,
            matrix_of(dist),
        ) && !has_finite_route(n, start, end, matrix_of(dist))),
        r != Err::<Vec<usize>, SolveError>(SolveError::PathReconstructionFailed),
{
    if n == 0 || start >= n || end >= n || !check_square(n, dist) {
        return Err(SolveError::InvalidInput);
    }
    let ghost g = matrix_of(dist);
    let intermediates = nodes_except(n, start, end, start);
    let result: (i64, Option<Vec<usize>>);
    if intermediates.len() == 0 {
        let prefix: Vec<usize> = vec![start];
        proof {
            assert(prefix@ =~= seq![start]);
            assert forall|x: usize| #[trigger] prefix@.contains(x) <==> x == start by {
                if x == start {
                    assert(prefix@[0] == x);
                }
            }
            if n > 1 && start == end {
                let o: usize = if start == 0 { 1 } else { 0 };
                assert(intermediates@.contains(o));
            }
            if n > 2 {
                let o: usize = if start != 0 && end != 0 { 0 } else if start != 1 && end != 1 { 1 } else { 2 };
                assert(intermediates@.contains(o));
            }
        }
        result = best_completion(n, start, end, dist, &prefix, &intermediates);
    } else {
        proof {
            assert forall|i: int| 0 <= i < intermediates@.len() implies #[trigger] intermediates@[i] < n
                && intermediates@[i] != start && intermediates@[i] != end by {
                assert(intermediates@.contains(intermediates@[i]));
            }
        }
        let parts = best_through_each(n, start, end, dist, &intermediates);
        let mut best: i64 = INF;
        let mut best_idx: usize = 0;
        let mut i: usize = 0;
        while i < parts.len()
            invariant
                parts@.len() == intermediates@.len(),
                forall|k: int| 0 <= k < parts@.len() ==> completion_result(n, start, end, g, seq![start, intermediates@[k]], #[trigger] parts@[k]),
                i <= parts@.len(),
                best_idx < parts@.len(),
                best == INF || best == parts@[best_idx as int].0,
                0 <= best <= INF,
                forall|k: int| 0 <= k < i ==> best <= (#[trigger] parts@[k]).0,
            decreases parts@.len() - i,
        {
            if parts[i].0 < best {
                best = parts[i].0;
                best_idx = i;
            }
            i = i + 1;
        }
        proof {
            assert forall|q: Seq<usize>| #[trigger] is_route(n, start, end, q) implies best <= capped(path_cost(g, q)) by {
                let f = q[1];
                if start == end {
                    assert(q.drop_last()[1] == f);
                    assert(q.drop_last()[0] == start);
                    assert(q.drop_last().contains(f));
                } else {
                    if n <= 2 {
                        assert(intermediates@.contains(intermediates@[0]));
                    }
                    assert(q[q.len() - 1] == end);
                }
                assert(intermediates@.contains(f));
                let k = choose|k: int| 0 <= k < intermediates@.len() && intermediates@[k] == f;
                assert(q.take(2) =~= seq![start, f]);
                assert(completion_result(n, start, end, g, seq![start, intermediates@[k]], parts@[k]));
            }
        }
        let mut parts = parts;
        let chosen = parts.swap_remove(best_idx);
        proof {
            assert(completion_result(n, start, end, g, seq![start, intermediates@[best_idx as int]], chosen));
        }
        if best < INF {
            result = (best, chosen.1);
        } else {
            result = (INF, None);
        }
        proof {
            if result.1 is Some {
                let p = result.1->Some_0@;
                assert(p.take(1) =~= seq![start]);
            }
            assert forall|q: Seq<usize>| #[trigger] is_route(n, start, end, q) && extends(q, seq![start])
                implies result.0 <= capped(path_cost(g, q)) by {
            }
        }
    }
    proof {
        assert(completion_result(n, start, end, g, seq![start], result));
        assert forall|q: Seq<usize>| #[trigger] is_route(n, start, end, q) implies result.0 <= capped(path_cost(g, q)) by {
            if start == end && n > 1 {
                assert(q.drop_last()[0] == q[0]);
            }
            assert(q.take(1) =~= seq![start]);
            assert(extends(q, seq![start]));
        }
    }
    let (best, best_path) = result;
    match best_path {
        Some(p) => {
            proof {
                assert(is_route(n, start, end, p@) && is_finite(g, p@));
            }
            Ok(p)
        },
        None => Err(SolveError::NoPathFound),
    }
}

} // verus!
