//! The solver selector and the unit of measure of the cost matrix.
use vstd::prelude::*;

verus! {

/// Which exact solver to run.
#[derive(Debug, Clone, Copy, PartialEq, Eq, Structural)]
pub enum Algorithm {
    HeldKarp,
    BruteForce,
}

impl Algorithm {
    /// The selector's name as given on a command line.
    pub fn name(&self) -> (r: &'static str)
        ensures
            *self == Algorithm::HeldKarp ==> r@ == "held-karp"@,
            *self == Algorithm::BruteForce ==> r@ == "brute-force"@,
    {
        match self {
            Algorithm::HeldKarp => "held-karp",
            Algorithm::BruteForce => "brute-force",
        }
    }
}

/// What the costs measure: travel distance in meters or travel time in
/// minutes.
#[derive(Debug, Clone, Copy, PartialEq, Eq, Structural)]
pub enum Mode {
    Distance,
    Time,
}

} // verus!
