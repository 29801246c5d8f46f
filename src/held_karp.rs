//! The exact solver: Held-Karp dynamic programming over (node, visited-set)
//! states, with the visited set held as a bitmask.
use vstd::prelude::*;
use crate::masks::{
    bits_below, full_mask, has_bit, lemma_below_pow, lemma_bit_clear, lemma_bit_set,
    lemma_bits_below_clear, lemma_bits_below_full, lemma_bits_ext, lemma_clear_present,
    lemma_mask_of_bits, lemma_mask_of_bound, lemma_set_absent, mask_of,
};
use crate::model::{
    add_cost, capped, check_square, costs_nonneg, edge, has_finite_path, is_finite, is_ham_path,
    is_optimal_path, is_square, lemma_cost_prefix, lemma_cost_prepend, lemma_cost_push,
    matrix_of, nodes_below, path_cost, valid_input, SolveError, INF,
};

verus! {

/// The largest node count the dynamic program accepts: its tables hold
/// `n * 2^n` entries.
pub const MAX_DP_NODES: usize = 20;

/// The predecessor entry of a state that no transition has reached.
const NO_PARENT: usize = usize::MAX;

/// Entry `(v, m)` of a table laid out with `size` masks per node.
pub open spec fn cell<T>(t: Seq<T>, size: nat, v: int, m: int) -> T {
    t[v * size + m]
}

proof fn lemma_cell_index(n: nat, size: nat, v: int, m: int)
    requires
        0 <= v < n,
        0 <= m < size,
    ensures
        0 <= v * size + m < n * size,
{
    assert(0 <= v * size + m < n * size) by (nonlinear_arith)
        requires
            0 <= v < n,
            0 <= m < size,
    ;
}

proof fn lemma_cell_distinct(size: nat, v1: int, m1: int, v2: int, m2: int)
    requires
        0 <= v1,
        0 <= v2,
        0 <= m1 < size,
        0 <= m2 < size,
        v1 != v2 || m1 != m2,
    ensures
        v1 * size + m1 != v2 * size + m2,
{
    if v1 < v2 {
        assert(v1 * size + m1 < v2 * size + m2) by (nonlinear_arith)
            requires
                0 <= v1 < v2,
                0 <= m1 < size,
                0 <= m2,
        ;
    } else if v2 < v1 {
        assert(v2 * size + m2 < v1 * size + m1) by (nonlinear_arith)
            requires
                0 <= v2 < v1,
                0 <= m2 < size,
                0 <= m1,
        ;
    }
}

fn cell_index(n: usize, size: usize, v: usize, m: usize) -> (k: usize)
    requires
        v < n,
        m < size,
        n * size <= usize::MAX,
    ensures
        k == v * size + m,
        k < n * size,
{
    proof {
        lemma_cell_index(n as nat, size as nat, v as int, m as int);
    }
    v * size + m
}

/// `q` starts at `start`, repeats no node and stays below `n`.
pub open spec fn is_rooted_simple(n: nat, start: usize, q: Seq<usize>) -> bool {
    &&& 1 <= q.len()
    &&& q[0] == start
    &&& q.no_duplicates()
    &&& nodes_below(n, q)
}

/// A finite entry `(v, m)` is the root state, or is reached through its
/// recorded predecessor from a finite entry of the mask without `v`, at
/// exactly the edge's cost; that mask is below `lim`.
spec fn entry_sound(
    dp: Seq<i64>,
    parent: Seq<usize>,
    n: nat,
    size: nat,
    start: usize,
    dist: Seq<Seq<i64>>,
    lim: int,
    v: int,
    m: int,
) -> bool {
    let c = cell(dp, size, v, m);
    let mm = m as u64;
    &&& 0 <= c
    &&& has_bit(mm, v as u64)
    &&& has_bit(mm, start as u64)
    &&& if mm == 1u64 << (start as u64) {
        v == start && c == 0
    } else {
        let p = cell(parent, size, v, m);
        let pm = mm & !(1u64 << (v as u64));
        &&& p < n
        &&& p != v
        &&& has_bit(mm, p as u64)
        &&& (pm as int) < lim
        &&& cell(dp, size, p as int, pm as int) < INF
        &&& c == cell(dp, size, p as int, pm as int) + edge(dist, p, v as usize)
    }
}

spec fn table_sound(
    dp: Seq<i64>,
    parent: Seq<usize>,
    n: nat,
    size: nat,
    start: usize,
    dist: Seq<Seq<i64>>,
    lim: int,
) -> bool {
    forall|v: int, m: int|
        0 <= v < n && 0 <= m < size && #[trigger] cell(dp, size, v, m) < INF ==> entry_sound(
            dp,
            parent,
            n,
            size,
            start,
            dist,
            lim,
            v,
            m,
        )
}

/// The sweep has already relaxed the last edge of `q`: it has passed the
/// state `(mask, node)` before that edge, or is at it and past the edge's
/// target.
spec fn processed(q: Seq<usize>, m: int, u: int, v: int) -> bool {
    q.len() == 1 || {
        let pre = q.drop_last();
        let pm = mask_of(pre) as int;
        pm < m || (pm == m && (pre.last() < u || (pre.last() == u && q.last() < v)))
    }
}

/// Every finite rooted simple path that the sweep has processed bounds the
/// entry of its last node and node set.
spec fn table_bounds(
    dp: Seq<i64>,
    n: nat,
    size: nat,
    start: usize,
    dist: Seq<Seq<i64>>,
    m: int,
    u: int,
    v: int,
) -> bool {
    forall|q: Seq<usize>|
        #[trigger] is_rooted_simple(n, start, q) && is_finite(dist, q) && processed(q, m, u, v)
            ==> cell(dp, size, q.last() as int, mask_of(q) as int) <= path_cost(dist, q)
}

/// The last edge of a rooted simple path leaves from a smaller mask.
proof fn lemma_pre_mask(n: nat, start: usize, q: Seq<usize>)
    requires
        n < 64,
        is_rooted_simple(n, start, q),
        q.len() >= 2,
    ensures
        is_rooted_simple(n, start, q.drop_last()),
        !has_bit(mask_of(q.drop_last()), q.last() as u64),
        mask_of(q) == mask_of(q.drop_last()) | (1u64 << (q.last() as u64)),
        mask_of(q.drop_last()) < mask_of(q),
{
    let pre = q.drop_last();
    assert(q[q.len() - 1] < n);
    lemma_mask_of_bits(pre, q.last() as u64);
    if pre.contains(q.last()) {
        let i = choose|i: int| 0 <= i < pre.len() && pre[i] == q.last();
        assert(q[i] == q[q.len() - 1]);
    }
    lemma_set_absent(mask_of(pre), q.last() as u64);
}

proof fn lemma_sound_weaken(
    dp: Seq<i64>,
    parent: Seq<usize>,
    n: nat,
    size: nat,
    start: usize,
    dist: Seq<Seq<i64>>,
    lim: int,
    lim2: int,
)
    requires
        table_sound(dp, parent, n, size, start, dist, lim),
        lim <= lim2,
    ensures
        table_sound(dp, parent, n, size, start, dist, lim2),
{
    assert forall|v: int, m: int|
        0 <= v < n && 0 <= m < size && #[trigger] cell(dp, size, v, m) < INF implies entry_sound(
            dp,
            parent,
            n,
            size,
            start,
            dist,
            lim2,
            v,
            m,
        ) by {
        assert(entry_sound(dp, parent, n, size, start, dist, lim, v, m));
    }
}

/// Lowering entry `(v, nxt)` to the cost through `u` keeps the table sound.
proof fn lemma_relax_sound(
    dp0: Seq<i64>,
    par0: Seq<usize>,
    dp1: Seq<i64>,
    par1: Seq<usize>,
    n: nat,
    size: nat,
    start: usize,
    dist: Seq<Seq<i64>>,
    mask: u64,
    u: usize,
    v: usize,
    nxt: u64,
    cand: i64,
)
    requires
        n < 64,
        size == (1u64 << (n as u64)) as nat,
        start < n,
        table_sound(dp0, par0, n, size, start, dist, mask + 1),
        dp0.len() == n * size,
        par0.len() == n * size,
        u < n,
        v < n,
        mask < size,
        nxt < size,
        has_bit(mask, u as u64),
        !has_bit(mask, v as u64),
        nxt == mask | (1u64 << (v as u64)),
        cell(dp0, size, u as int, mask as int) < INF,
        0 <= cand < INF,
        cand == cell(dp0, size, u as int, mask as int) + edge(dist, u, v),
        dp1 == dp0.update(v * size + nxt, cand),
        par1 == par0.update(v * size + nxt, u),
    ensures
        table_sound(dp1, par1, n, size, start, dist, mask + 1),
{
    lemma_cell_index(n, size, v as int, nxt as int);
    lemma_set_absent(mask, v as u64);
    assert(entry_sound(dp0, par0, n, size, start, dist, mask + 1, u as int, mask as int));
    lemma_bit_set(mask, v as u64, v as u64);
    lemma_bit_set(mask, v as u64, u as u64);
    lemma_bit_set(mask, v as u64, start as u64);
    lemma_below_pow(0, u as u64, start as u64);
    lemma_below_pow(0, v as u64, start as u64);
    lemma_cell_distinct(size, u as int, mask as int, v as int, nxt as int);
    lemma_cell_index(n, size, u as int, mask as int);
    assert(cell(dp1, size, u as int, mask as int) == cell(dp0, size, u as int, mask as int));
    assert(entry_sound(dp1, par1, n, size, start, dist, mask + 1, v as int, nxt as int));
    assert forall|v2: int, m2: int|
        0 <= v2 < n && 0 <= m2 < size && #[trigger] cell(dp1, size, v2, m2) < INF implies entry_sound(
            dp1,
            par1,
            n,
            size,
            start,
            dist,
            mask + 1,
            v2,
            m2,
        ) by {
        if v2 != v || m2 != nxt as int {
            lemma_cell_distinct(size, v2, m2, v as int, nxt as int);
            lemma_cell_index(n, size, v2, m2);
            assert(cell(dp1, size, v2, m2) == cell(dp0, size, v2, m2));
            assert(cell(par1, size, v2, m2) == cell(par0, size, v2, m2));
            assert(entry_sound(dp0, par0, n, size, start, dist, mask + 1, v2, m2));
            let mm = m2 as u64;
            if mm != 1u64 << (start as u64) {
                let p = cell(par0, size, v2, m2);
                let pm = mm & !(1u64 << (v2 as u64));
                assert(pm <= mask);
                assert(pm < mm) by {
                    lemma_clear_present(mm, v2 as u64);
                }
                lemma_cell_distinct(size, p as int, pm as int, v as int, nxt as int);
                lemma_cell_index(n, size, p as int, pm as int);
            }
        }
    }
}

/// Computes a minimum-cost Hamiltonian path from `start` to `end` over the
/// `n x n` cost matrix `dist`, by dynamic programming over visited sets.
pub fn held_karp(n: usize, start: usize, end: usize, dist: &Vec<Vec<i64>>) -> (r: Result<
    Vec<usize>,
    SolveError,
>)
    requires
        n <= MAX_DP_NODES,
        costs_nonneg(matrix_of(dist)),
    ensures
        r == Err::<Vec<usize>, SolveError>(SolveError::InvalidInput) <==> !valid_input(
            n,
            start,
            end,
            matrix_of(dist),
        ),
        r is Ok ==> is_optimal_path(n, start, end, matrix_of(dist), r->Ok_0@),
        r == Err::<Vec<usize>, SolveError>(SolveError::NoPathFound) <==> (valid_input(
            n,
            start,
            end,
            matrix_of(dist),
        ) && !has_finite_path(n, start, end, matrix_of(dist))),
        r != Err::<Vec<usize>, SolveError>(SolveError::PathReconstructionFailed),
{
    if n == 0 || start >= n || end >= n || !check_square(n, dist) {
        return Err(SolveError::InvalidInput);
    }
    let ghost g = matrix_of(dist);
    let ghost gn = n as nat;
    let n64 = n as u64;
    assert((1u64 << n64) <= 1048576u64) by (bit_vector)
        requires
            n64 <= 20,
    ;
    let size64: u64 = 1u64 << n64;
    let size: usize = size64 as usize;
    let ghost gs = size as nat;
    assert(n * size <= 20 * 1048576) by (nonlinear_arith)
        requires
            n <= 20,
            size <= 1048576,
    ;
    let total: usize = n * size;
    let mut dp: Vec<i64> = vec![INF; total];
    let mut parent: Vec<usize> = vec![NO_PARENT; total];
    let start64 = start as u64;
    assert((1u64 << start64) < (1u64 << n64)) by (bit_vector)
        requires
            start64 < n64,
            n64 <= 20,
    ;
    let root: u64 = 1u64 << start64;
    let k0 = cell_index(n, size, start, root as usize);
    dp.set(k0, 0);
    proof {
        assert(dp@.len() == gn * gs);
        assert(forall|i: int| 0 <= i < total && i != k0 ==> dp@[i] == INF);
        assert forall|v: int, m: int|
            0 <= v < gn && 0 <= m < gs && #[trigger] cell(dp@, gs, v, m) < INF implies entry_sound(
                dp@,
                parent@,
                gn,
                gs,
                start,
                g,
                0,
                v,
                m,
            ) by {
            lemma_cell_index(gn, gs, v, m);
            if v != start || m != root {
                lemma_cell_distinct(gs, v, m, start as int, root as int);
            }
            lemma_below_pow(0, start as u64, start as u64);
        }
        assert forall|q: Seq<usize>|
            #[trigger] is_rooted_simple(gn, start, q) && is_finite(g, q) && processed(q, 0, 0, 0)
                implies cell(dp@, gs, q.last() as int, mask_of(q) as int) <= path_cost(g, q) by {
            if q.len() >= 2 {
                lemma_pre_mask(gn, start, q);
            } else {
                assert(q.drop_last() =~= Seq::<usize>::empty());
                assert(0u64 | root == root) by (bit_vector);
                assert(mask_of(q) == mask_of(q.drop_last()) | (1u64 << (q.last() as u64)));
                assert(mask_of(q) == root);
                lemma_cell_index(gn, gs, start as int, root as int);
                assert(cell(dp@, gs, start as int, root as int) == 0);
            }
        }
    }
    let mut mask: u64 = 0;
    while mask < size64
        invariant
            g == matrix_of(dist),
            valid_input(n, start, end, g),
            costs_nonneg(g),
            n <= MAX_DP_NODES,
            gn == n,
            n64 == n,
            gs == size,
            size == size64,
            size64 == 1u64 << n64,
            size64 <= 1048576,
            total == n * size,
            dp@.len() == total,
            parent@.len() == total,
            mask <= size64,
            table_sound(dp@, parent@, gn, gs, start, g, mask as int),
            table_bounds(dp@, gn, gs, start, g, mask as int, 0, 0),
        decreases size64 - mask,
    {
        proof {
            lemma_sound_weaken(dp@, parent@, gn, gs, start, g, mask as int, mask + 1);
        }
        let mut u: usize = 0;
        while u < n
            invariant
                g == matrix_of(dist),
                valid_input(n, start, end, g),
                costs_nonneg(g),
                n <= MAX_DP_NODES,
                gn == n,
                n64 == n,
                gs == size,
                size == size64,
                size64 == 1u64 << n64,
                size64 <= 1048576,
                total == n * size,
                dp@.len() == total,
                parent@.len() == total,
                mask < size64,
                u <= n,
                table_sound(dp@, parent@, gn, gs, start, g, mask + 1),
                table_bounds(dp@, gn, gs, start, g, mask as int, u as int, 0),
            decreases n - u,
        {
            let ku = cell_index(n, size, u, mask as usize);
            let c = dp[ku];
            if c != INF {
                proof {
                    assert(entry_sound(dp@, parent@, gn, gs, start, g, mask + 1, u as int, mask as int));
                }
                let mut v: usize = 0;
                while v < n
                    invariant
                        g == matrix_of(dist),
                        valid_input(n, start, end, g),
                        costs_nonneg(g),
                        n <= MAX_DP_NODES,
                        gn == n,
                        n64 == n,
                        gs == size,
                        size == size64,
                        size64 == 1u64 << n64,
                        size64 <= 1048576,
                        total == n * size,
                        dp@.len() == total,
                        parent@.len() == total,
                        mask < size64,
                        u < n,
                        v <= n,
                        0 <= c < INF,
                        has_bit(mask, u as u64),
                        cell(dp@, gs, u as int, mask as int) == c,
                        table_sound(dp@, parent@, gn, gs, start, g, mask + 1),
                        table_bounds(dp@, gn, gs, start, g, mask as int, u as int, v as int),
                    decreases n - v,
                {
                    let v64 = v as u64;
                    let ghost dp_before = dp@;
                    assert(((mask >> v64) & 1u64 == 0u64) == !has_bit(mask, v64)) by (bit_vector);
                    if (mask >> v64) & 1u64 == 0u64 {
                        let nxt: u64 = mask | (1u64 << v64);
                        proof {
                            lemma_below_pow(mask, n64, v64);
                            lemma_set_absent(mask, v64);
                        }
                        assert(g[u as int] == dist@[u as int]@);
                        let d = dist[u][v];
                        let kv = cell_index(n, size, v, nxt as usize);
                        if d != INF {
                            let cand = add_cost(c, d);
                            if cand < dp[kv] {
                                let ghost dp0 = dp@;
                                let ghost par0 = parent@;
                                proof {
                                    lemma_cell_distinct(gs, u as int, mask as int, v as int, nxt as int);
                                    lemma_cell_index(gn, gs, u as int, mask as int);
                                    lemma_cell_index(gn, gs, v as int, nxt as int);
                                }
                                dp.set(kv, cand);
                                parent.set(kv, u);
                                proof {
                                    lemma_relax_sound(dp0, par0, dp@, parent@, gn, gs, start, g,
                                        mask, u, v, nxt, cand);
                                    assert(cell(dp@, gs, u as int, mask as int) == c);
                                }
                            }
                        }
                    }
                    proof {
                        lemma_bounds_step(dp_before, dp@, gn, gs, start, g, mask, u, v, c);
                    }
                    v = v + 1;
                }
                proof {
                    lemma_bounds_next_node(dp@, gn, gs, start, g, mask, u);
                }
            } else {
                proof {
                    lemma_cell_index(gn, gs, u as int, mask as int);
                    lemma_bounds_skip(dp@, gn, gs, start, g, mask, u);
                }
            }
            u = u + 1;
        }
        proof {
            lemma_bounds_next_mask(dp@, gn, gs, start, g, mask);
        }
        mask = mask + 1;
    }
    let full: u64 = size64 - 1;
    let kb = cell_index(n, size, end, full as usize);
    let best = dp[kb];
    proof {
        assert forall|q: Seq<usize>| #[trigger] is_ham_path(n, start, end, q) && is_finite(g, q)
            implies best <= path_cost(g, q) by {
            lemma_ham_mask(n, start, end, q);
        }
    }
    if best == INF {
        return Err(SolveError::NoPathFound);
    }
    proof {
        lemma_cell_index(gn, gs, end as int, full as int);
        assert(entry_sound(dp@, parent@, gn, gs, start, g, size64 as int, end as int, full as int));
    }
    let mut current: usize = end;
    let mut cur_mask: u64 = full;
    let mut path: Vec<usize> = Vec::new();
    path.push(end);
    proof {
        lemma_bits_below_full(n64, start64, gn);
        assert forall|w: usize| w < n implies (path@.contains(w) <==> (!has_bit(cur_mask, w as u64)
            || w == current)) by {
            lemma_below_pow(0, n64, w as u64);
            if path@.contains(w) {
                assert(path@[0] == w);
            }
            if w == current {
                assert(path@[0] == w);
            }
        }
    }
    while cur_mask != root
        invariant
            g == matrix_of(dist),
            valid_input(n, start, end, g),
            costs_nonneg(g),
            n <= MAX_DP_NODES,
            gn == n,
            n64 == n,
            start64 == start,
            gs == size,
            size == size64,
            size64 == 1u64 << n64,
            size64 <= 1048576,
            root == 1u64 << start64,
            total == n * size,
            dp@.len() == total,
            parent@.len() == total,
            table_sound(dp@, parent@, gn, gs, start, g, size64 as int),
            current < n,
            cur_mask < size64,
            0 <= best < INF,
            cell(dp@, gs, current as int, cur_mask as int) < INF,
            path@.len() >= 1,
            path@[0] == current,
            path@[path@.len() - 1] == end,
            path@.no_duplicates(),
            nodes_below(gn, path@),
            forall|w: usize|
                w < n ==> (path@.contains(w) <==> (!has_bit(cur_mask, w as u64) || w == current)),
            path_cost(g, path@) + cell(dp@, gs, current as int, cur_mask as int) == best,
            path@.len() + bits_below(cur_mask, gn) == n + 1,
        decreases cur_mask,
    {
        let kc = cell_index(n, size, current, cur_mask as usize);
        let prev = parent[kc];
        proof {
            assert(entry_sound(dp@, parent@, gn, gs, start, g, size64 as int, current as int, cur_mask as int));
        }
        if prev >= n {
            return Err(SolveError::PathReconstructionFailed);
        }
        let ghost old_path = path@;
        let cur64 = current as u64;
        let next_mask: u64 = cur_mask & !(1u64 << cur64);
        path.insert(0, prev);
        proof {
            assert(path@ =~= seq![prev] + old_path);
            lemma_clear_present(cur_mask, cur64);
            lemma_bits_below_clear(cur_mask, cur64, gn);
            lemma_cost_prepend(g, prev, old_path);
            assert(!old_path.contains(prev)) by {
                lemma_bit_clear(cur_mask, cur64, prev as u64);
            }
            assert forall|w: usize| w < n implies (path@.contains(w) <==> (!has_bit(next_mask, w as u64)
                || w == prev)) by {
                lemma_bit_clear(cur_mask, cur64, w as u64);
                if path@.contains(w) && w != prev {
                    let i = choose|i: int| 0 <= i < path@.len() && path@[i] == w;
                    assert(old_path[i - 1] == w);
                }
                if old_path.contains(w) {
                    let i = choose|i: int| 0 <= i < old_path.len() && old_path[i] == w;
                    assert(path@[i + 1] == w);
                }
                assert(path@[0] == prev);
            }
            assert forall|i: int, j: int| 0 <= i < j < path@.len() implies path@[i] != path@[j] by {
                if i == 0 {
                    assert(old_path.contains(path@[j]));
                } else {
                    assert(old_path[i - 1] != old_path[j - 1]);
                }
            }
        }
        cur_mask = next_mask;
        current = prev;
    }
    proof {
        assert(entry_sound(dp@, parent@, gn, gs, start, g, size64 as int, current as int, cur_mask as int));
        lemma_below_pow(0, current as u64, start64);
        lemma_bits_below_full(n64, start64, gn);
        assert forall|w: usize| w < n implies path@.contains(w) by {
            lemma_below_pow(0, w as u64, start64);
        }
        assert(is_ham_path(n, start, end, path@));
        assert forall|q: Seq<usize>| #[trigger] is_ham_path(n, start, end, q) implies path_cost(g, path@)
            <= path_cost(g, q) by {}
    }
    Ok(path)
}

/// A Hamiltonian path's node set is the full mask, and it is a rooted simple
/// path whose last edge leaves from a mask below `2^n`.
proof fn lemma_ham_mask(n: usize, start: usize, end: usize, q: Seq<usize>)
    requires
        n <= MAX_DP_NODES,
        is_ham_path(n, start, end, q),
    ensures
        is_rooted_simple(n as nat, start, q),
        mask_of(q) == full_mask(n as u64),
        q.len() == 1 || mask_of(q.drop_last()) < (1u64 << (n as u64)),
{
    let n64 = n as u64;
    assert forall|w: u64| w < 64 implies has_bit(mask_of(q), w) == has_bit(full_mask(n64), w) by {
        lemma_mask_of_bits(q, w);
        lemma_below_pow(0, n64, w);
        if q.contains(w as usize) {
            let i = choose|i: int| 0 <= i < q.len() && q[i] == w as usize;
            assert(q[i] < n);
        }
    }
    lemma_bits_ext(mask_of(q), full_mask(n64));
    if q.len() >= 2 {
        lemma_mask_of_bound(q.drop_last(), n64);
    }
}

/// Relaxing the edge from `u` to `v` extends the bound to the paths whose
/// last edge it is.
proof fn lemma_bounds_step(
    dp0: Seq<i64>,
    dp1: Seq<i64>,
    n: nat,
    size: nat,
    start: usize,
    dist: Seq<Seq<i64>>,
    mask: u64,
    u: usize,
    v: usize,
    c: i64,
)
    requires
        n <= 20,
        size == (1u64 << (n as u64)) as nat,
        is_square(n, dist),
        costs_nonneg(dist),
        dp0.len() == n * size,
        dp1.len() == n * size,
        table_bounds(dp0, n, size, start, dist, mask as int, u as int, v as int),
        u < n,
        v < n,
        mask < size,
        cell(dp0, size, u as int, mask as int) == c,
        forall|j: int| 0 <= j < dp0.len() ==> dp1[j] <= dp0[j],
        !has_bit(mask, v as u64) && dist[u as int][v as int] != INF ==> cell(
            dp1,
            size,
            v as int,
            (mask | (1u64 << (v as u64))) as int,
        ) <= capped(c + dist[u as int][v as int]),
    ensures
        table_bounds(dp1, n, size, start, dist, mask as int, u as int, v + 1),
{
    assert forall|q: Seq<usize>|
        #[trigger] is_rooted_simple(n, start, q) && is_finite(dist, q) && processed(
            q,
            mask as int,
            u as int,
            v + 1,
        ) implies cell(dp1, size, q.last() as int, mask_of(q) as int) <= path_cost(dist, q) by {
        assert(q[q.len() - 1] < n);
        lemma_mask_of_bound(q, n as u64);
        lemma_cell_index(n, size, q.last() as int, mask_of(q) as int);
        if !processed(q, mask as int, u as int, v as int) {
            let pre = q.drop_last();
            lemma_pre_mask(n, start, q);
            assert(q =~= pre.push(v));
            lemma_cost_push(dist, pre, v);
            lemma_cost_prefix(dist, q, q.len() - 1);
            assert(q.take(q.len() - 1) =~= pre);
            assert(dist[u as int][v as int] >= 0);
            if pre.len() >= 2 {
                lemma_pre_mask(n, start, pre);
            }
            assert(processed(pre, mask as int, u as int, v as int));
        }
    }
}

/// An infinite entry `(u, mask)` bounds nothing through `u`.
proof fn lemma_bounds_skip(
    dp: Seq<i64>,
    n: nat,
    size: nat,
    start: usize,
    dist: Seq<Seq<i64>>,
    mask: u64,
    u: usize,
)
    requires
        n <= 20,
        is_square(n, dist),
        costs_nonneg(dist),
        table_bounds(dp, n, size, start, dist, mask as int, u as int, 0),
        u < n,
        cell(dp, size, u as int, mask as int) == INF,
    ensures
        table_bounds(dp, n, size, start, dist, mask as int, u + 1, 0),
{
    assert forall|q: Seq<usize>|
        #[trigger] is_rooted_simple(n, start, q) && is_finite(dist, q) && processed(
            q,
            mask as int,
            u + 1,
            0,
        ) implies cell(dp, size, q.last() as int, mask_of(q) as int) <= path_cost(dist, q) by {
        if !processed(q, mask as int, u as int, 0) {
            let pre = q.drop_last();
            lemma_pre_mask(n, start, q);
            lemma_cost_prefix(dist, q, q.len() - 1);
            assert(q.take(q.len() - 1) =~= pre);
            if pre.len() >= 2 {
                lemma_pre_mask(n, start, pre);
            }
            assert(processed(pre, mask as int, u as int, 0));
        }
    }
}

proof fn lemma_bounds_next_node(
    dp: Seq<i64>,
    n: nat,
    size: nat,
    start: usize,
    dist: Seq<Seq<i64>>,
    mask: u64,
    u: usize,
)
    requires
        table_bounds(dp, n, size, start, dist, mask as int, u as int, n as int),
    ensures
        table_bounds(dp, n, size, start, dist, mask as int, u + 1, 0),
{
    assert forall|q: Seq<usize>|
        #[trigger] is_rooted_simple(n, start, q) && is_finite(dist, q) && processed(
            q,
            mask as int,
            u + 1,
            0,
        ) implies cell(dp, size, q.last() as int, mask_of(q) as int) <= path_cost(dist, q) by {
        assert(q[q.len() - 1] < n);
        assert(processed(q, mask as int, u as int, n as int));
    }
}

proof fn lemma_bounds_next_mask(
    dp: Seq<i64>,
    n: nat,
    size: nat,
    start: usize,
    dist: Seq<Seq<i64>>,
    mask: u64,
)
    requires
        table_bounds(dp, n, size, start, dist, mask as int, n as int, 0),
    ensures
        table_bounds(dp, n, size, start, dist, mask + 1, 0, 0),
{
    assert forall|q: Seq<usize>|
        #[trigger] is_rooted_simple(n, start, q) && is_finite(dist, q) && processed(
            q,
            mask + 1,
            0,
            0,
        ) implies cell(dp, size, q.last() as int, mask_of(q) as int) <= path_cost(dist, q) by {
        if q.len() >= 2 {
            let pre = q.drop_last();
            assert(pre[pre.len() - 1] < n);
        }
        assert(processed(q, mask as int, n as int, 0));
    }
}

} // verus!
