//! The design protocol that an implementation is held to.

use vstd::prelude::*;
use crate::error::{Complexity, ComplexityViolation, TopologyError};

verus! {

/// Maps a problem into solution space.
pub trait ProblemDomain {
    /// The size of the solution space the problem maps to.
    fn map_to_solution(&self) -> usize;
}

/// A solution with a declared complexity class.
pub trait DesignSolution {
    /// The declared complexity class.
    fn complexity(&self) -> Complexity;
}

/// What a design states: its problem, its solution, and its topology check.
pub trait DesignProtocol {
    type Problem: ProblemDomain;
    type Solution: DesignSolution;

    /// What problem is solved.
    fn problem(&self) -> &Self::Problem;

    /// How it is solved.
    fn solution(&self) -> &Self::Solution;

    /// Whether the topology is compatible.
    fn verify_hdis(&self) -> Result<(), TopologyError>;
}

/// Accepts the logarithmic class only.
pub fn check_complexity(c: Complexity) -> (r: Result<(), ComplexityViolation>)
    ensures
        c == Complexity::LogN ==> r is Ok,
        c != Complexity::LogN ==> r == Err::<(), ComplexityViolation>(
            ComplexityViolation::Expected { expected: Complexity::LogN, actual: c }),
{
    match c {
        Complexity::LogN => Ok(()),
        other => Err(ComplexityViolation::Expected { expected: Complexity::LogN, actual: other }),
    }
}

/// Checks that a solution declares the logarithmic class.
pub fn validate_complexity<S: DesignSolution>(s: &S) -> (r: Result<(), ComplexityViolation>)
    ensures
        r is Ok || (r matches Err(ComplexityViolation::Expected { expected, actual })
            && expected == Complexity::LogN && actual != Complexity::LogN),
{
    check_complexity(s.complexity())
}

} // verus!
