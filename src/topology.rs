//! Registers pipeline payloads into the graph and runs the whole topology.

use vstd::prelude::*;
use crate::dag::{traversal_report, NodeId, Visitor, DAG};
use crate::design::check_complexity;
use crate::error::{AuxSpaceViolation, Complexity, ComplexityViolation, CycleViolation, DepthViolation, EdgeError, TopologyError};
use crate::bound::ceil_log2;
use crate::graph::{boundable, reaches, with_edge};
use crate::pipeline::{pipeline_state, run_pipeline, Archerion, PipelineState, Stage};

verus! {

/// The state-awareness / self-repair monitor that registration talks to.
/// Its spec functions are unspecified until an impl defines them.
pub trait Monitor {
    /// Every registration offered so far: the node and its declared class.
    open spec fn registrations(&self) -> Seq<(NodeId, Complexity)> {
        arbitrary()
    }

    /// Whether the monitor accepts node `id`.
    open spec fn accepts(&self, id: NodeId) -> bool {
        arbitrary()
    }

    /// Offers node `id`, described by its declared class; a refusal stops
    /// registration.
    fn accept_node(&mut self, id: NodeId, class: Complexity) -> (r: bool)
        ensures
            r == old(self).accepts(id),
            final(self).registrations() == old(self).registrations().push((id, class)),
    ;

    /// Asks for self-repair on `id`; best effort, its outcome is not awaited.
    fn enable_self_repair(&mut self, id: NodeId)
        ensures
            final(self).registrations() == old(self).registrations(),
    ;
}

/// A pipeline state read as a visit's result: `Failed(s)` fails with `s`.
pub open spec fn state_result(s: PipelineState) -> Result<(), Stage> {
    match s {
        PipelineState::Failed(st) => Err(st),
        _ => Ok(()),
    }
}

/// Runs the pipeline as the traversal's visit: a node succeeds when its
/// pipeline ends `Watched`, and fails with the stage that stopped it.
pub struct PipelineVisitor {
    pub log: Ghost<Seq<NodeId>>,
}

impl<A: Archerion> Visitor<A, Stage> for PipelineVisitor {
    open spec fn calls(&self) -> Seq<NodeId> {
        self.log@
    }

    open spec fn result_of(&self, payload: A) -> Result<(), Stage> {
        state_result(pipeline_state(payload))
    }

    fn visit(&mut self, id: NodeId, payload: &A) -> (r: Result<(), Stage>) {
        let s = run_pipeline(payload);
        self.log = Ghost(self.log@.push(id));
        match s {
            PipelineState::Failed(st) => Err(st),
            _ => Ok(()),
        }
    }
}

/// The traversal result that a pipeline report stands for: `Watched` is a
/// successful visit, `Failed(s)` a visit that failed at stage `s`.
pub open spec fn as_results(rep: Seq<(NodeId, PipelineState)>) -> Seq<(NodeId, Result<(), Stage>)> {
    rep.map_values(|e: (NodeId, PipelineState)| (e.0, state_result(e.1)))
}

/// A graph of pipeline payloads.
pub struct HDISIntegration<A> {
    dag: DAG<A>,
}

impl<A: Archerion> HDISIntegration<A> {
    /// The graph of registered payloads.
    pub closed spec fn graph(&self) -> DAG<A> {
        self.dag
    }

    /// An empty topology.
    pub fn new() -> (r: Self)
        ensures
            r.graph().wf(),
            r.graph().len() == 0,
    {
        HDISIntegration { dag: DAG::new() }
    }

    /// Registers a payload: it must declare the logarithmic class and be
    /// admitted by the monitor, or nothing is inserted. On success the node
    /// is a new root and self-repair is requested for it.
    pub fn register_archerion<M: Monitor>(&mut self, archerion: A, monitor: &mut M) -> (r: Result<NodeId, TopologyError>)
        requires
            old(self).graph().wf(),
            old(self).graph().len() < usize::MAX,
        ensures
            final(self).graph().wf(),
            archerion.declared() != Complexity::LogN ==> r == Err::<NodeId, TopologyError>(TopologyError::Incompatible(
                ComplexityViolation::Expected { expected: Complexity::LogN, actual: archerion.declared() }))
                && final(self).graph() == old(self).graph()
                && final(monitor).registrations() == old(monitor).registrations(),
            archerion.declared() == Complexity::LogN ==> final(monitor).registrations()
                == old(monitor).registrations().push((NodeId { index: old(self).graph().len() as usize }, Complexity::LogN)),
            archerion.declared() == Complexity::LogN && !old(monitor).accepts(NodeId { index: old(self).graph().len() as usize })
                ==> r == Err::<NodeId, TopologyError>(TopologyError::Rejected) && final(self).graph() == old(self).graph(),
            archerion.declared() == Complexity::LogN && old(monitor).accepts(NodeId { index: old(self).graph().len() as usize })
                ==> r == Ok::<NodeId, TopologyError>(NodeId { index: old(self).graph().len() as usize })
                && final(self).graph().len() == old(self).graph().len() + 1
                && final(self).graph().payload_view() == old(self).graph().payload_view().push(archerion)
                && final(self).graph().children_view() == old(self).graph().children_view().push(Seq::<usize>::empty())
                && final(self).graph().depth_view() == old(self).graph().depth_view().push(0),
    {
        let class = archerion.complexity();
        let accepted = if class == Complexity::LogN {
            monitor.accept_node(NodeId { index: self.dag.node_count() }, class)
        } else {
            false
        };
        let r = self.settle_registration(archerion, class, accepted);
        if let Ok(id) = r {
            monitor.enable_self_repair(id);
        }
        r
    }

    /// The decision of a registration once the payload's declared class and
    /// the monitor's answer are known: a class other than the logarithmic
    /// one is refused, then a refusal by the monitor; otherwise the payload
    /// becomes a new root under the next id.
    pub fn settle_registration(&mut self, archerion: A, class: Complexity, accepted: bool) -> (r: Result<NodeId, TopologyError>)
        requires
            old(self).graph().wf(),
            old(self).graph().len() < usize::MAX,
        ensures
            final(self).graph().wf(),
            class != Complexity::LogN ==> r == Err::<NodeId, TopologyError>(TopologyError::Incompatible(
                ComplexityViolation::Expected { expected: Complexity::LogN, actual: class }))
                && final(self).graph() == old(self).graph(),
            class == Complexity::LogN && !accepted ==> r == Err::<NodeId, TopologyError>(TopologyError::Rejected)
                && final(self).graph() == old(self).graph(),
            class == Complexity::LogN && accepted ==> r == Ok::<NodeId, TopologyError>(NodeId { index: old(self).graph().len() as usize })
                && final(self).graph().len() == old(self).graph().len() + 1
                && final(self).graph().payload_view() == old(self).graph().payload_view().push(archerion)
                && final(self).graph().children_view() == old(self).graph().children_view().push(Seq::<usize>::empty())
                && final(self).graph().depth_view() == old(self).graph().depth_view().push(0),
    {
        match check_complexity(class) {
            Err(v) => {
                return Err(TopologyError::Incompatible(v));
            },
            Ok(()) => {},
        }
        if !accepted {
            return Err(TopologyError::Rejected);
        }
        let id = self.dag.add_node(archerion).unwrap();
        Ok(id)
    }

    /// Adds the edge `parent -> child` to the graph, as `DAG::add_edge` does.
    pub fn connect(&mut self, parent: NodeId, child: NodeId) -> (r: Result<(), EdgeError>)
        requires
            old(self).graph().wf(),
            parent.index < old(self).graph().len(),
            child.index < old(self).graph().len(),
            old(self).graph().children_view()[parent.index as int].len() < usize::MAX,
        ensures
            final(self).graph().wf(),
            final(self).graph().len() == old(self).graph().len(),
            r is Err ==> final(self).graph().children_view() == old(self).graph().children_view()
                && final(self).graph().depth_view() == old(self).graph().depth_view(),
            r is Ok ==> final(self).graph().children_view()
                == with_edge(old(self).graph().children_view(), parent.index as int, child.index as int),
            (r == Err::<(), EdgeError>(EdgeError::Cycle(CycleViolation { parent: parent.index, child: child.index })))
                <==> reaches(old(self).graph().children_view(), child.index as int, parent.index as int),
            (r == Err::<(), EdgeError>(EdgeError::Depth(DepthViolation::ExceedsLogN))) <==> (
                !reaches(old(self).graph().children_view(), child.index as int, parent.index as int)
                && !boundable(
                    with_edge(old(self).graph().children_view(), parent.index as int, child.index as int),
                    ceil_log2(old(self).graph().len()) as int,
                )),
            r is Ok <==> (
                !reaches(old(self).graph().children_view(), child.index as int, parent.index as int)
                && boundable(
                    with_edge(old(self).graph().children_view(), parent.index as int, child.index as int),
                    ceil_log2(old(self).graph().len()) as int,
                )),
    {
        self.dag.add_edge(parent, child)
    }

    /// Runs the pipeline on every node in traversal order: a node is run
    /// exactly when all of its parents ended `Watched`, so the nodes below a
    /// failed one are skipped and all others still run. Returns each run
    /// node with its final state, `Watched` or the stage that failed.
    pub fn execute_topology(&self) -> (r: Result<Vec<(NodeId, PipelineState)>, AuxSpaceViolation>)
        requires
            self.graph().wf(),
        ensures
            r is Ok,
            r is Ok ==> forall|t: int| 0 <= t < r->Ok_0@.len() ==>
                (#[trigger] r->Ok_0@[t]).1 == PipelineState::Watched || r->Ok_0@[t].1 is Failed,
            r is Ok ==> traversal_report(self.graph().depth_view(), self.graph().children_view(), as_results(r->Ok_0@)),
            r is Ok ==> forall|t: int| 0 <= t < r->Ok_0@.len() ==> (#[trigger] r->Ok_0@[t]).1
                == pipeline_state(self.graph().payload_view()[r->Ok_0@[t].0.index as int]),
    {
        let mut v = PipelineVisitor { log: Ghost(Seq::empty()) };
        let visits = match self.dag.traverse(&mut v) {
            Ok(visits) => visits,
            Err(e) => {
                return Err(e);
            },
        };
        let mut rep: Vec<(NodeId, PipelineState)> = Vec::new();
        let mut t: usize = 0;
        while t < visits.len()
            invariant
                t <= visits@.len(),
                rep@.len() == t,
                forall|u: int| 0 <= u < t ==> (#[trigger] rep@[u]).1 == PipelineState::Watched || rep@[u].1 is Failed,
                as_results(rep@) =~= visits@.subrange(0, t as int),
                forall|u: int| 0 <= u < visits@.len() ==> (#[trigger] visits@[u]).1
                    == state_result(pipeline_state(self.graph().payload_view()[visits@[u].0.index as int])),
                forall|u: int| 0 <= u < t ==> (#[trigger] rep@[u]).0 == visits@[u].0,
                forall|u: int| 0 <= u < t ==> (#[trigger] rep@[u]).1
                    == pipeline_state(self.graph().payload_view()[visits@[u].0.index as int]),
            decreases visits@.len() - t,
        {
            let (id, res) = visits[t];
            let st = match res {
                Ok(()) => PipelineState::Watched,
                Err(s) => PipelineState::Failed(s),
            };
            let ghost rep0 = rep@;
            rep.push((id, st));
            proof {
                assert(rep@ == rep0.push((id, st)));
                assert(id == visits@[t as int].0 && res == visits@[t as int].1);
                match res {
                    Ok(u) => {
                        assert(u == ());
                        assert(res == Ok::<(), Stage>(()));
                        assert(as_results(rep@)[t as int] == (id, Ok::<(), Stage>(())));
                        assert(as_results(rep@)[t as int] == (id, res));
                    },
                    Err(s) => {
                        assert(as_results(rep@)[t as int] == (id, Err::<(), Stage>(s)));
                        assert(as_results(rep@)[t as int] == (id, res));
                    },
                }
                assert(visits@[t as int] == (id, res));
                assert(as_results(rep@)[t as int] == visits@[t as int]);
                assert forall|u: int| 0 <= u < t implies as_results(rep@)[u] == #[trigger] visits@[u] by {
                    assert(rep@[u] == rep0[u]);
                    assert(as_results(rep0)[u] == visits@.subrange(0, t as int)[u]);
                }
            }
            t = t + 1;
            assert(as_results(rep@) =~= visits@.subrange(0, t as int));
        }
        assert(visits@.subrange(0, visits@.len() as int) =~= visits@);
        Ok(rep)
    }
}

} // verus!
