//! Errors reported by the graph, the traversal and the pipeline.

use vstd::prelude::*;

verus! {

/// An insertion or edge would break the logarithmic depth bound.
#[derive(Clone, Copy, Debug, PartialEq, Eq, Structural)]
pub enum DepthViolation {
    ExceedsLogN,
}

/// An edge would close a cycle: `child` already reaches `parent`.
#[derive(Clone, Copy, Debug, PartialEq, Eq, Structural)]
pub struct CycleViolation {
    pub parent: usize,
    pub child: usize,
}

/// Why `add_edge` refused an edge.
#[derive(Clone, Copy, Debug, PartialEq, Eq, Structural)]
pub enum EdgeError {
    Depth(DepthViolation),
    Cycle(CycleViolation),
}

/// A traversal or a memory store would exceed its logarithmic space.
#[derive(Clone, Copy, Debug, PartialEq, Eq, Structural)]
pub enum AuxSpaceViolation {
    StackOverflow,
}

/// The capture of a phenotype failed.
#[derive(Clone, Copy, Debug, PartialEq, Eq, Structural)]
pub enum ObserveError {
    CaptureFailed,
}

/// A complexity class other than the logarithmic one was met.
#[derive(Clone, Copy, Debug, PartialEq, Eq, Structural)]
pub enum ComplexityViolation {
    Expected { expected: Complexity, actual: Complexity },
}

/// The consume stage failed, while storing or while computing.
#[derive(Clone, Copy, Debug, PartialEq, Eq, Structural)]
pub enum ConsumeError {
    Store(AuxSpaceViolation),
    Compute(ComplexityViolation),
}

/// The watch stage found the node unhealthy.
#[derive(Clone, Copy, Debug, PartialEq, Eq, Structural)]
pub enum SegmentFault {
    Unhealthy,
}

/// Registration was refused.
#[derive(Clone, Copy, Debug, PartialEq, Eq, Structural)]
pub enum TopologyError {
    /// The payload declares a complexity class other than the logarithmic one.
    Incompatible(ComplexityViolation),
    /// The monitor refused the node.
    Rejected,
}

/// A declared complexity class.
#[derive(Clone, Copy, Debug, PartialEq, Eq, Structural)]
pub enum Complexity {
    Constant,
    LogN,
    Linear,
    Linearithmic,
    Quadratic,
}

} // verus!
