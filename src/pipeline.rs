//! The observe / consume / watch pipeline run on each visited node.

use vstd::prelude::*;
use crate::error::{AuxSpaceViolation, Complexity, ComplexityViolation, ConsumeError, ObserveError, SegmentFault};

verus! {

/// Observable state.
pub trait Phenotype {
    type State;

    /// Captures the observable state.
    fn capture(&self) -> Self::State;
}

/// A store of captured memories, each kept under a token.
pub trait Phenomemory {
    type Memory;
    type Token;

    /// Stores a memory and hands back its token.
    fn store(&mut self, memory: Self::Memory) -> Result<Self::Token, AuxSpaceViolation>;

    /// The memory stored under `token`, if any.
    fn retrieve(&self, token: &Self::Token) -> Option<&Self::Memory>;
}

/// A value derived from stored memory.
pub trait Phenovalue {
    type Value;

    /// Derives the value from the memory store.
    fn compute<Mem: Phenomemory>(&self, memory: &Mem) -> Result<Self::Value, ComplexityViolation>;
}

/// A payload that carries the whole pipeline. Each stage's success is a
/// property of the payload, named by a spec function that is unspecified
/// until an impl defines it.
pub trait Archerion {
    type P: Phenotype;
    type M: Phenomemory;
    type V: Phenovalue;

    /// The complexity class the payload declares.
    open spec fn declared(&self) -> Complexity {
        arbitrary()
    }

    /// Whether Observe succeeds on this payload.
    open spec fn observe_ok(&self) -> bool {
        arbitrary()
    }

    /// Whether Consume succeeds on this payload.
    open spec fn consume_ok(&self) -> bool {
        arbitrary()
    }

    /// Whether Watch succeeds on this payload.
    open spec fn watch_ok(&self) -> bool {
        arbitrary()
    }

    /// The declared complexity class.
    fn complexity(&self) -> (r: Complexity)
        ensures
            r == self.declared(),
    ;

    /// The phenotype that Observe captures.
    fn phenotype(&self) -> Self::P;

    /// Observe: capture the phenotype into memory.
    fn observe(&self, phenotype: Self::P) -> (r: Result<Self::M, ObserveError>)
        ensures
            (r is Ok) == self.observe_ok(),
    ;

    /// Consume: store the memory and derive a value from it.
    fn consume(&self, memory: Self::M) -> (r: Result<Self::V, ConsumeError>)
        ensures
            (r is Ok) == self.consume_ok(),
    ;

    /// Watch: check the value against the monitor.
    fn watch(&self, value: Self::V) -> (r: Result<(), SegmentFault>)
        ensures
            (r is Ok) == self.watch_ok(),
    ;
}

/// A pipeline stage.
#[derive(Clone, Copy, Debug, PartialEq, Eq, Structural)]
pub enum Stage {
    Observe,
    Consume,
    Watch,
}

/// Where a node's pipeline stands.
#[derive(Clone, Copy, Debug, PartialEq, Eq, Structural)]
pub enum PipelineState {
    Pending,
    Observed,
    Consumed,
    Watched,
    Failed(Stage),
}

/// The state after the current stage succeeded (`ok`) or failed.
pub open spec fn next_state(s: PipelineState, ok: bool) -> PipelineState {
    match s {
        PipelineState::Pending => if ok { PipelineState::Observed } else { PipelineState::Failed(Stage::Observe) },
        PipelineState::Observed => if ok { PipelineState::Consumed } else { PipelineState::Failed(Stage::Consume) },
        PipelineState::Consumed => if ok { PipelineState::Watched } else { PipelineState::Failed(Stage::Watch) },
        _ => s,
    }
}

/// Where a pipeline ends from the outcomes of its three stages, taken in
/// order: the first failure is the final state, and `Watched` if none fails.
pub open spec fn outcome_of(observed: bool, consumed: bool, watched: bool) -> PipelineState {
    if !observed {
        PipelineState::Failed(Stage::Observe)
    } else if !consumed {
        PipelineState::Failed(Stage::Consume)
    } else if !watched {
        PipelineState::Failed(Stage::Watch)
    } else {
        PipelineState::Watched
    }
}

/// Where the pipeline of payload `a` ends.
pub open spec fn pipeline_state<A: Archerion>(a: A) -> PipelineState {
    outcome_of(a.observe_ok(), a.consume_ok(), a.watch_ok())
}

/// Moves a pipeline one stage on; terminal states stay as they are.
pub fn advance(s: PipelineState, ok: bool) -> (r: PipelineState)
    ensures
        r == next_state(s, ok),
{
    match s {
        PipelineState::Pending => if ok { PipelineState::Observed } else { PipelineState::Failed(Stage::Observe) },
        PipelineState::Observed => if ok { PipelineState::Consumed } else { PipelineState::Failed(Stage::Consume) },
        PipelineState::Consumed => if ok { PipelineState::Watched } else { PipelineState::Failed(Stage::Watch) },
        _ => s,
    }
}

/// Runs observe, consume and watch in turn, stopping at the first failure.
/// The result is `Watched` or the failure of the stage that stopped it.
pub fn run_pipeline<A: Archerion>(a: &A) -> (r: PipelineState)
    ensures
        r == pipeline_state(*a),
{
    let s = PipelineState::Pending;
    match a.observe(a.phenotype()) {
        Err(_) => advance(s, false),
        Ok(m) => {
            let s = advance(s, true);
            match a.consume(m) {
                Err(_) => advance(s, false),
                Ok(v) => {
                    let s = advance(s, true);
                    let w = a.watch(v);
                    advance(s, w.is_ok())
                },
            }
        },
    }
}

} // verus!
