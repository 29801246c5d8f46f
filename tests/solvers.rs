use tsp_solver::brute_force::brute_force;
use tsp_solver::held_karp::held_karp;
use tsp_solver::model::{add_cost, route_cost, SolveError, INF};
use tsp_solver::tsp::solve;
use tsp_solver::types::Algorithm;

fn is_hamiltonian(n: usize, start: usize, end: usize, p: &Vec<usize>) -> bool {
    if p.len() != n || p[0] != start || p[n - 1] != end {
        return false;
    }
    let mut seen = vec![false; n];
    for &v in p {
        if v >= n || seen[v] {
            return false;
        }
        seen[v] = true;
    }
    true
}

fn square(n: usize) -> Vec<Vec<i64>> {
    let mut m = vec![vec![INF; n]; n];
    for i in 0..n {
        m[i][i] = 0;
    }
    m
}

fn sym(m: &mut Vec<Vec<i64>>, i: usize, j: usize, c: i64) {
    m[i][j] = c;
    m[j][i] = c;
}

/// A 4-cycle 0-1-2-3-0 of unit edges with heavy diagonals.
fn four_cycle() -> Vec<Vec<i64>> {
    let mut m = square(4);
    sym(&mut m, 0, 1, 1);
    sym(&mut m, 1, 2, 1);
    sym(&mut m, 2, 3, 1);
    sym(&mut m, 3, 0, 1);
    sym(&mut m, 0, 2, 100);
    sym(&mut m, 1, 3, 100);
    m
}

/// A complete asymmetric graph on five nodes with varied costs.
fn five_nodes() -> Vec<Vec<i64>> {
    vec![
        vec![0, 7, 3, 9, 4],
        vec![2, 0, 8, 5, 6],
        vec![6, 1, 0, 7, 3],
        vec![4, 9, 2, 0, 8],
        vec![5, 3, 7, 1, 0],
    ]
}

#[test]
fn single_node_is_its_own_path() {
    let m = vec![vec![0i64]];
    let p = held_karp(1, 0, 0, &m).unwrap();
    assert_eq!(p, vec![0]);
    assert_eq!(route_cost(&m, &p), 0);
    let q = brute_force(1, 0, 0, &m).unwrap();
    assert_eq!(q, vec![0]);
    assert_eq!(route_cost(&m, &q), 0);
}

#[test]
fn four_cycle_avoids_heavy_diagonals() {
    let m = four_cycle();
    let p = held_karp(4, 0, 3, &m).unwrap();
    assert_eq!(p, vec![0, 1, 2, 3]);
    assert_eq!(route_cost(&m, &p), 3);
    let q = brute_force(4, 0, 3, &m).unwrap();
    assert_eq!(q, vec![0, 1, 2, 3]);
    assert_eq!(route_cost(&m, &q), 3);
}

#[test]
fn solvers_agree_on_cost() {
    let m = five_nodes();
    for start in 0..5 {
        for end in 0..5 {
            if start == end {
                continue;
            }
            let p = held_karp(5, start, end, &m).unwrap();
            let q = brute_force(5, start, end, &m).unwrap();
            assert_eq!(route_cost(&m, &p), route_cost(&m, &q));
        }
    }
}

#[test]
fn five_node_optimum_is_exact() {
    let m = five_nodes();
    let p = held_karp(5, 0, 3, &m).unwrap();
    // 0 -> 2 -> 1 -> 4 -> 3 costs 3 + 1 + 6 + 1.
    assert_eq!(route_cost(&m, &p), 11);
    assert_eq!(p, vec![0, 2, 1, 4, 3]);
}

#[test]
fn returned_paths_are_hamiltonian() {
    let m = five_nodes();
    for start in 0..5 {
        for end in 0..5 {
            if start == end {
                continue;
            }
            let p = held_karp(5, start, end, &m).unwrap();
            assert!(is_hamiltonian(5, start, end, &p));
            let q = brute_force(5, start, end, &m).unwrap();
            assert!(is_hamiltonian(5, start, end, &q));
        }
    }
}

#[test]
fn solving_twice_gives_same_cost() {
    let m = five_nodes();
    let a = held_karp(5, 1, 4, &m).unwrap();
    let b = held_karp(5, 1, 4, &m).unwrap();
    assert_eq!(route_cost(&m, &a), route_cost(&m, &b));
    let c = brute_force(5, 1, 4, &m).unwrap();
    let d = brute_force(5, 1, 4, &m).unwrap();
    assert_eq!(route_cost(&m, &c), route_cost(&m, &d));
}

#[test]
fn symmetric_reversal_keeps_cost() {
    let mut m = square(5);
    let costs = [[0, 4, 8, 3, 6], [4, 0, 2, 7, 5], [8, 2, 0, 9, 1], [3, 7, 9, 0, 4], [6, 5, 1, 4, 0]];
    for i in 0..5 {
        for j in 0..5 {
            m[i][j] = costs[i][j];
        }
    }
    let forward = held_karp(5, 0, 4, &m).unwrap();
    let backward = held_karp(5, 4, 0, &m).unwrap();
    let mut reversed = forward.clone();
    reversed.reverse();
    assert_eq!(route_cost(&m, &reversed), route_cost(&m, &forward));
    assert_eq!(route_cost(&m, &backward), route_cost(&m, &forward));
}

#[test]
fn unreachable_node_gives_no_path() {
    let mut m = square(4);
    sym(&mut m, 0, 1, 2);
    sym(&mut m, 1, 3, 2);
    sym(&mut m, 0, 3, 2);
    m[2][0] = 5;
    m[2][1] = 5;
    m[2][3] = 5;
    assert_eq!(held_karp(4, 0, 3, &m), Err(SolveError::NoPathFound));
    assert_eq!(brute_force(4, 0, 3, &m), Err(SolveError::NoPathFound));
}

#[test]
fn overflowing_sum_counts_as_unreachable() {
    let mut m = square(3);
    m[0][1] = i64::MAX - 1;
    m[1][2] = 5;
    m[0][2] = 1;
    m[2][1] = 1;
    m[1][0] = 1;
    assert_eq!(held_karp(3, 0, 2, &m), Err(SolveError::NoPathFound));
    assert_eq!(brute_force(3, 0, 2, &m), Err(SolveError::NoPathFound));
}

#[test]
fn overflowing_candidate_loses_to_finite_one() {
    let mut m = square(4);
    m[0][1] = i64::MAX - 10;
    m[1][2] = 20;
    m[2][3] = 1;
    m[0][2] = 50;
    m[2][1] = 50;
    m[1][3] = 50;
    let p = held_karp(4, 0, 3, &m).unwrap();
    assert_eq!(p, vec![0, 2, 1, 3]);
    assert_eq!(route_cost(&m, &p), 150);
    let q = brute_force(4, 0, 3, &m).unwrap();
    assert_eq!(q, vec![0, 2, 1, 3]);
}

#[test]
fn two_nodes_give_direct_path() {
    let m = vec![vec![0, 9], vec![4, 0]];
    assert_eq!(held_karp(2, 1, 0, &m), Ok(vec![1, 0]));
    assert_eq!(brute_force(2, 1, 0, &m), Ok(vec![1, 0]));
}

#[test]
fn closed_tour_when_endpoints_coincide() {
    let m = four_cycle();
    let q = brute_force(4, 0, 0, &m).unwrap();
    assert_eq!(q.len(), 5);
    assert_eq!(q[0], 0);
    assert_eq!(q[4], 0);
    assert_eq!(route_cost(&m, &q), 4);
    assert_eq!(held_karp(4, 0, 0, &m), Err(SolveError::NoPathFound));
}

#[test]
fn invalid_inputs_are_rejected() {
    let m = four_cycle();
    assert_eq!(held_karp(4, 4, 0, &m), Err(SolveError::InvalidInput));
    assert_eq!(held_karp(4, 0, 7, &m), Err(SolveError::InvalidInput));
    assert_eq!(held_karp(0, 0, 0, &vec![]), Err(SolveError::InvalidInput));
    assert_eq!(held_karp(3, 0, 2, &m), Err(SolveError::InvalidInput));
    assert_eq!(brute_force(4, 5, 0, &m), Err(SolveError::InvalidInput));
    let ragged = vec![vec![0, 1], vec![1]];
    assert_eq!(brute_force(2, 0, 1, &ragged), Err(SolveError::InvalidInput));
    assert_eq!(held_karp(2, 0, 1, &ragged), Err(SolveError::InvalidInput));
}

#[test]
fn dispatch_runs_selected_solver() {
    let m = four_cycle();
    assert_eq!(solve(Algorithm::HeldKarp, 4, 0, 3, &m), Ok(vec![0, 1, 2, 3]));
    assert_eq!(solve(Algorithm::BruteForce, 4, 0, 3, &m), Ok(vec![0, 1, 2, 3]));
    assert_eq!(Algorithm::HeldKarp.name(), "held-karp");
    assert_eq!(Algorithm::BruteForce.name(), "brute-force");
}

#[test]
fn saturating_cost_addition() {
    assert_eq!(add_cost(2, 3), 5);
    assert_eq!(add_cost(INF - 1, 5), INF);
    assert_eq!(add_cost(INF, 0), INF);
    assert_eq!(add_cost(INF - 5, 4), INF - 1);
    assert_eq!(add_cost(INF - 5, 5), INF);
}

#[test]
fn route_cost_sums_and_saturates() {
    let m = four_cycle();
    assert_eq!(route_cost(&m, &vec![0, 2, 1, 3]), 201);
    assert_eq!(route_cost(&m, &vec![3]), 0);
    let mut big = square(3);
    big[0][1] = INF - 3;
    big[1][2] = 3;
    assert_eq!(route_cost(&big, &vec![0, 1, 2]), INF);
    big[1][2] = 2;
    assert_eq!(route_cost(&big, &vec![0, 1, 2]), INF - 1);
}

#[test]
fn larger_graph_solvers_agree() {
    let n = 8;
    let mut m = square(n);
    for i in 0..n {
        for j in 0..n {
            if i != j {
                m[i][j] = ((i * 37 + j * 11) % 23 + 1) as i64;
            }
        }
    }
    let p = held_karp(n, 2, 5, &m).unwrap();
    let q = brute_force(n, 2, 5, &m).unwrap();
    assert!(is_hamiltonian(n, 2, 5, &p));
    assert!(is_hamiltonian(n, 2, 5, &q));
    assert_eq!(route_cost(&m, &p), route_cost(&m, &q));
}
