//! One entry point over both exact solvers.
use vstd::prelude::*;
pub use crate::brute_force::brute_force;
pub use crate::held_karp::{held_karp, MAX_DP_NODES};
use crate::model::{
    costs_nonneg, has_finite_path, has_finite_route, is_optimal_path, is_optimal_route, matrix_of,
    valid_input, SolveError,
};
use crate::types::Algorithm;

verus! {

/// Runs the selected solver on the same inputs.
pub fn solve(algorithm: Algorithm, n: usize, start: usize, end: usize, dist: &Vec<Vec<i64>>) -> (r:
    Result<Vec<usize>, SolveError>)
    requires
        algorithm == Algorithm::HeldKarp ==> n <= MAX_DP_NODES,
        costs_nonneg(matrix_of(dist)),
    ensures
        r == Err::<Vec<usize>, SolveError>(SolveError::InvalidInput) <==> !valid_input(
            n,
            start,
            end,
            matrix_of(dist),
        ),
        algorithm == Algorithm::HeldKarp && r is Ok ==> is_optimal_path(
            n,
            start,
            end,
            matrix_of(dist),
            r->Ok_0@,
        ),
        algorithm == Algorithm::BruteForce && r is Ok ==> is_optimal_route(
            n,
            start,
            end,
            matrix_of(dist),
            r->Ok_0@,
        ),
        r == Err::<Vec<usize>, SolveError>(SolveError::NoPathFound) <==> (valid_input(
            n,
            start,
            end,
            matrix_of(dist),
        ) && if algorithm == Algorithm::HeldKarp {
            !has_finite_path(n, start, end, matrix_of(dist))
        } else {
            !has_finite_route(n, start, end, matrix_of(dist))
        }),
        r != Err::<Vec<usize>, SolveError>(SolveError::PathReconstructionFailed),
{
    match algorithm {
        Algorithm::HeldKarp => held_karp(n, start, end, dist),
        Algorithm::BruteForce => brute_force(n, start, end, dist),
    }
}

} // verus!
