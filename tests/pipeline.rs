use bounded_dag::dag::NodeId;
use bounded_dag::design::{check_complexity, validate_complexity, DesignSolution};
use bounded_dag::error::{
    AuxSpaceViolation, Complexity, ComplexityViolation, ConsumeError, ObserveError, SegmentFault, TopologyError,
};
use bounded_dag::pipeline::{advance, run_pipeline, Archerion, Phenomemory, Phenotype, Phenovalue, PipelineState, Stage};
use bounded_dag::topology::{HDISIntegration, Monitor};

struct Snapshot(u32);

impl Phenotype for Snapshot {
    type State = u32;
    fn capture(&self) -> u32 {
        self.0
    }
}

struct Store {
    items: Vec<u32>,
    room: usize,
}

impl Phenomemory for Store {
    type Memory = u32;
    type Token = usize;
    fn store(&mut self, memory: u32) -> Result<usize, AuxSpaceViolation> {
        if self.items.len() >= self.room {
            return Err(AuxSpaceViolation::StackOverflow);
        }
        self.items.push(memory);
        Ok(self.items.len() - 1)
    }
    fn retrieve(&self, token: &usize) -> Option<&u32> {
        self.items.get(*token)
    }
}

struct Derived(u32);

impl Phenovalue for Derived {
    type Value = u32;
    fn compute<Mem: Phenomemory>(&self, _memory: &Mem) -> Result<u32, ComplexityViolation> {
        Ok(self.0)
    }
}

struct Payload {
    class: Complexity,
    fail: Option<Stage>,
}

impl Archerion for Payload {
    type P = Snapshot;
    type M = Store;
    type V = Derived;
    fn complexity(&self) -> Complexity {
        self.class
    }
    fn phenotype(&self) -> Snapshot {
        Snapshot(1)
    }
    fn observe(&self, p: Snapshot) -> Result<Store, ObserveError> {
        if self.fail == Some(Stage::Observe) {
            return Err(ObserveError::CaptureFailed);
        }
        Ok(Store { items: vec![p.capture()], room: 1 })
    }
    fn consume(&self, mut m: Store) -> Result<Derived, ConsumeError> {
        let token = if self.fail == Some(Stage::Consume) {
            m.store(2).map_err(ConsumeError::Store)?
        } else {
            0
        };
        let base = *m.retrieve(&token).unwrap();
        let v = Derived(base + 1);
        v.compute(&m).map_err(ConsumeError::Compute)?;
        Ok(v)
    }
    fn watch(&self, _v: Derived) -> Result<(), SegmentFault> {
        if self.fail == Some(Stage::Watch) { Err(SegmentFault::Unhealthy) } else { Ok(()) }
    }
}

struct Gate {
    accept: bool,
    repaired: Vec<usize>,
    offered: Vec<(usize, Complexity)>,
}

impl Monitor for Gate {
    fn accept_node(&mut self, id: NodeId, class: Complexity) -> bool {
        self.offered.push((id.index, class));
        self.accept
    }
    fn enable_self_repair(&mut self, id: NodeId) {
        self.repaired.push(id.index);
    }
}

fn ok(fail: Option<Stage>) -> Payload {
    Payload { class: Complexity::LogN, fail }
}

#[test]
fn advance_walks_the_stages() {
    let s = advance(PipelineState::Pending, true);
    assert_eq!(s, PipelineState::Observed);
    let s = advance(s, true);
    assert_eq!(s, PipelineState::Consumed);
    assert_eq!(advance(s, true), PipelineState::Watched);
    assert_eq!(advance(s, false), PipelineState::Failed(Stage::Watch));
    assert_eq!(advance(PipelineState::Pending, false), PipelineState::Failed(Stage::Observe));
    assert_eq!(advance(PipelineState::Observed, false), PipelineState::Failed(Stage::Consume));
    assert_eq!(advance(PipelineState::Watched, false), PipelineState::Watched);
}

#[test]
fn run_pipeline_reports_the_failing_stage() {
    assert_eq!(run_pipeline(&ok(None)), PipelineState::Watched);
    assert_eq!(run_pipeline(&ok(Some(Stage::Observe))), PipelineState::Failed(Stage::Observe));
    assert_eq!(run_pipeline(&ok(Some(Stage::Consume))), PipelineState::Failed(Stage::Consume));
    assert_eq!(run_pipeline(&ok(Some(Stage::Watch))), PipelineState::Failed(Stage::Watch));
}

#[test]
fn complexity_check_accepts_log_only() {
    assert_eq!(check_complexity(Complexity::LogN), Ok(()));
    assert_eq!(
        check_complexity(Complexity::Linear),
        Err(ComplexityViolation::Expected { expected: Complexity::LogN, actual: Complexity::Linear })
    );
}

#[test]
fn registration_is_all_or_nothing() {
    let mut t: HDISIntegration<Payload> = HDISIntegration::new();
    let mut yes = Gate { accept: true, repaired: vec![], offered: vec![] };
    let mut no = Gate { accept: false, repaired: vec![], offered: vec![] };
    assert_eq!(t.register_archerion(ok(None), &mut yes), Ok(NodeId { index: 0 }));
    assert_eq!(t.register_archerion(ok(None), &mut no), Err(TopologyError::Rejected));
    let r = t.register_archerion(Payload { class: Complexity::Quadratic, fail: None }, &mut yes);
    assert_eq!(
        r,
        Err(TopologyError::Incompatible(ComplexityViolation::Expected {
            expected: Complexity::LogN,
            actual: Complexity::Quadratic
        }))
    );
    assert_eq!(t.register_archerion(ok(None), &mut yes), Ok(NodeId { index: 1 }));
    assert_eq!(yes.offered, vec![(0, Complexity::LogN), (1, Complexity::LogN)]);
    assert_eq!(no.offered, vec![(1, Complexity::LogN)]);
    assert_eq!(yes.repaired, vec![0, 1]);
}

#[test]
fn consume_failure_skips_children_and_spares_siblings() {
    let mut t: HDISIntegration<Payload> = HDISIntegration::new();
    let mut m = Gate { accept: true, repaired: vec![], offered: vec![] };
    t.register_archerion(ok(None), &mut m).unwrap();
    t.register_archerion(ok(Some(Stage::Consume)), &mut m).unwrap();
    t.register_archerion(ok(None), &mut m).unwrap();
    let report = t.execute_topology().unwrap();
    assert_eq!(
        report,
        vec![
            (NodeId { index: 0 }, PipelineState::Watched),
            (NodeId { index: 1 }, PipelineState::Failed(Stage::Consume)),
            (NodeId { index: 2 }, PipelineState::Watched),
        ]
    );
}

#[test]
fn chain_with_failing_consume_stops_below_it() {
    let mut t: HDISIntegration<Payload> = HDISIntegration::new();
    let mut m = Gate { accept: true, repaired: vec![], offered: vec![] };
    let a = t.register_archerion(ok(None), &mut m).unwrap();
    let b = t.register_archerion(ok(Some(Stage::Consume)), &mut m).unwrap();
    t.connect(a, b).unwrap();
    let c = t.register_archerion(ok(None), &mut m).unwrap();
    t.connect(b, c).unwrap();
    let report = t.execute_topology().unwrap();
    assert_eq!(
        report,
        vec![
            (NodeId { index: 0 }, PipelineState::Watched),
            (NodeId { index: 1 }, PipelineState::Failed(Stage::Consume)),
        ]
    );
}

struct Solution(Complexity);

impl DesignSolution for Solution {
    fn complexity(&self) -> Complexity {
        self.0
    }
}

#[test]
fn solution_must_declare_log() {
    assert_eq!(validate_complexity(&Solution(Complexity::LogN)), Ok(()));
    assert_eq!(
        validate_complexity(&Solution(Complexity::Constant)),
        Err(ComplexityViolation::Expected { expected: Complexity::LogN, actual: Complexity::Constant })
    );
}

#[test]
fn failed_watch_is_reported_as_such() {
    let mut t: HDISIntegration<Payload> = HDISIntegration::new();
    let mut m = Gate { accept: true, repaired: vec![], offered: vec![] };
    let a = t.register_archerion(ok(Some(Stage::Watch)), &mut m).unwrap();
    let b = t.register_archerion(ok(None), &mut m).unwrap();
    t.connect(a, b).unwrap();
    assert_eq!(t.execute_topology().unwrap(), vec![(a, PipelineState::Failed(Stage::Watch))]);
}

#[test]
fn connect_refuses_a_cycle() {
    let mut t: HDISIntegration<Payload> = HDISIntegration::new();
    let mut m = Gate { accept: true, repaired: vec![], offered: vec![] };
    let a = t.register_archerion(ok(None), &mut m).unwrap();
    let b = t.register_archerion(ok(None), &mut m).unwrap();
    t.connect(a, b).unwrap();
    assert_eq!(
        t.connect(b, a),
        Err(bounded_dag::error::EdgeError::Cycle(bounded_dag::error::CycleViolation { parent: 1, child: 0 }))
    );
}

#[test]
fn settled_registration_follows_class_then_monitor() {
    let mut t: HDISIntegration<Payload> = HDISIntegration::new();
    assert_eq!(
        t.settle_registration(ok(None), Complexity::Linear, true),
        Err(TopologyError::Incompatible(ComplexityViolation::Expected {
            expected: Complexity::LogN,
            actual: Complexity::Linear
        }))
    );
    assert_eq!(t.settle_registration(ok(None), Complexity::LogN, false), Err(TopologyError::Rejected));
    assert_eq!(t.settle_registration(ok(None), Complexity::LogN, true), Ok(NodeId { index: 0 }));
    assert_eq!(t.settle_registration(ok(None), Complexity::LogN, true), Ok(NodeId { index: 1 }));
    assert_eq!(t.execute_topology().unwrap().len(), 2);
}
