//! The bounded DAG: nodes with dense ids, child lists, and longest-path
//! depths that never exceed `ceil(log2(n))` for `n` nodes.

use vstd::prelude::*;
use crate::bound::{ceil_log2, ceil_log2_exec, lemma_ceil_log2_monotone};
use crate::error::{AuxSpaceViolation, CycleViolation, DepthViolation, EdgeError};
use crate::graph::{has_edge, below, minimal, settled, lemma_raise, lemma_cannot_raise, lemma_push_contains, count_false, lemma_count_false_set, slack, lemma_slack_set, lemma_slack_nonneg, bounded, boundable, edges_in_range, exact_depths, reaches, tight, valid_labelling, with_edge, lemma_exact_is_least, lemma_reaches_self, lemma_reaches_step, lemma_closed_holds_path, lemma_labelled_is_acyclic, is_path};

verus! {

/// A node's identifier: its insertion index in the graph that made it.
#[derive(Clone, Copy, Debug, PartialEq, Eq, Structural, Hash)]
pub struct NodeId {
    pub index: usize,
}

/// A directed acyclic graph whose depths stay within the logarithmic bound.
pub struct DAG<T> {
    payloads: Vec<T>,
    children: Vec<Vec<usize>>,
    depths: Vec<usize>,
    max_depth: usize,
}

/// The depth labelling held in a vector, as integers.
pub open spec fn depth_seq(d: Seq<usize>) -> Seq<int> {
    d.map_values(|x: usize| x as int)
}

/// `a` comes strictly before `b` in (depth, id) order.
pub open spec fn key_before(d: Seq<int>, a: int, b: int) -> bool {
    d[a] < d[b] || (d[a] == d[b] && a < b)
}

/// What `traverse` calls on each node it reaches. An `Err` is that node's
/// failure: its descendants are skipped, other nodes go on. The spec
/// functions are unspecified until an impl defines them, which a verified
/// impl must do to meet `visit`'s contract.
pub trait Visitor<T, E> {
    /// The ids this visitor has been called on, in order.
    open spec fn calls(&self) -> Seq<NodeId> {
        arbitrary()
    }

    /// What a visit of `payload` returns.
    open spec fn result_of(&self, payload: T) -> Result<(), E> {
        arbitrary()
    }

    /// Visits one node: logs the call and answers `result_of(payload)`.
    fn visit(&mut self, id: NodeId, payload: &T) -> (r: Result<(), E>)
        ensures
            final(self).calls() == old(self).calls().push(id),
            r == old(self).result_of(*payload),
            forall|p: T| #[trigger] final(self).result_of(p) == old(self).result_of(p),
    ;
}

/// The ids of a visit list, as `NodeId`s, in order.
pub open spec fn visited_nodes<E>(v: Seq<(NodeId, Result<(), E>)>) -> Seq<NodeId> {
    v.map_values(|e: (NodeId, Result<(), E>)| e.0)
}

/// Node `i` appears in the visit list `v`.
pub open spec fn listed<E>(v: Seq<(NodeId, Result<(), E>)>, i: int) -> bool {
    exists|t: int| 0 <= t < v.len() && (#[trigger] v[t]).0.index == i
}

/// Node `i` appears in `v` with a successful visit.
pub open spec fn listed_ok<E>(v: Seq<(NodeId, Result<(), E>)>, i: int) -> bool {
    exists|t: int| 0 <= t < v.len() && (#[trigger] v[t]).0.index == i && v[t].1 is Ok
}

/// Every parent of `i` appears in `v` with a successful visit.
pub open spec fn parents_ok<E>(ch: Seq<Seq<usize>>, v: Seq<(NodeId, Result<(), E>)>, i: int) -> bool {
    forall|p: int, j: int| 0 <= p < ch.len() && 0 <= j < ch[p].len() && #[trigger] ch[p][j] as int == i ==> listed_ok(v, p)
}

/// Every parent of `i` has status 1 (visited with success) in `st`.
pub open spec fn parents_marked(ch: Seq<Seq<usize>>, st: Seq<u8>, i: int) -> bool {
    forall|p: int, j: int| 0 <= p < ch.len() && 0 <= j < ch[p].len() && #[trigger] ch[p][j] as int == i ==> st[p] == 1
}

/// The result of a traversal of the graph `(d, ch)`: valid ids in strictly
/// ascending (depth, id) order, holding exactly the nodes whose parents
/// were all visited with success (so every root, and each node after all
/// of its parents). These conditions fix the list once the visits'
/// outcomes are known.
pub open spec fn traversal_report<E>(d: Seq<int>, ch: Seq<Seq<usize>>, v: Seq<(NodeId, Result<(), E>)>) -> bool {
    &&& forall|t: int| 0 <= t < v.len() ==> (#[trigger] v[t]).0.index < d.len()
    &&& forall|s: int, t: int| 0 <= s < t < v.len() ==>
        key_before(d, (#[trigger] v[s]).0.index as int, (#[trigger] v[t]).0.index as int)
    &&& forall|i: int| 0 <= i < d.len() ==> (#[trigger] listed(v, i) <==> parents_ok(ch, v, i))
}

/// What a push adds to `listed` and `listed_ok`.
pub proof fn lemma_listed_push<E>(v: Seq<(NodeId, Result<(), E>)>, e: (NodeId, Result<(), E>), i: int)
    ensures
        listed(v.push(e), i) == (listed(v, i) || e.0.index == i),
        listed_ok(v.push(e), i) == (listed_ok(v, i) || (e.0.index == i && e.1 is Ok)),
{
    let w = v.push(e);
    if listed(w, i) {
        let t = choose|t: int| 0 <= t < w.len() && (#[trigger] w[t]).0.index == i;
        if t < v.len() {
            assert(v[t] == w[t]);
        }
    }
    if listed(v, i) {
        let t = choose|t: int| 0 <= t < v.len() && (#[trigger] v[t]).0.index == i;
        assert(w[t] == v[t]);
    }
    if listed_ok(w, i) {
        let t = choose|t: int| 0 <= t < w.len() && (#[trigger] w[t]).0.index == i && w[t].1 is Ok;
        if t < v.len() {
            assert(v[t] == w[t]);
        }
    }
    if listed_ok(v, i) {
        let t = choose|t: int| 0 <= t < v.len() && (#[trigger] v[t]).0.index == i && v[t].1 is Ok;
        assert(w[t] == v[t]);
    }
    assert(w[v.len() as int] == e);
}

impl<T> DAG<T> {
    /// Number of nodes: one payload each.
    pub open spec fn len(&self) -> nat {
        self.payload_view().len()
    }

    /// The payloads, by node id.
    pub closed spec fn payload_view(&self) -> Seq<T> {
        self.payloads@
    }

    /// The child lists, by node id, in the order the edges were added.
    pub closed spec fn children_view(&self) -> Seq<Seq<usize>> {
        self.children@.map_values(|v: Vec<usize>| v@)
    }

    /// The depth of each node.
    pub closed spec fn depth_view(&self) -> Seq<int> {
        depth_seq(self.depths@)
    }

    /// The highest depth of any node (0 when empty).
    pub closed spec fn max_depth_view(&self) -> int {
        self.max_depth as int
    }

    /// The graph's invariant: every edge names a node, the depths are the
    /// longest-path depths, and none exceeds `ceil(log2(n))`.
    pub open spec fn wf(&self) -> bool {
        &&& self.children_view().len() == self.len()
        &&& edges_in_range(self.children_view())
        &&& exact_depths(self.children_view(), self.depth_view())
        &&& bounded(self.depth_view(), ceil_log2(self.len()) as int)
        &&& bounded(self.depth_view(), self.max_depth_view())
        &&& self.max_depth_view() <= ceil_log2(self.len())
        &&& (self.max_depth_view() == 0 || exists|i: int|
            0 <= i < self.len() && #[trigger] self.depth_view()[i] == self.max_depth_view())
    }

    /// An empty graph.
    pub fn new() -> (r: Self)
        ensures
            r.wf(),
            r.len() == 0,
            r.payload_view() == Seq::<T>::empty(),
    {
        let r = DAG { payloads: Vec::new(), children: Vec::new(), depths: Vec::new(), max_depth: 0 };
        assert(r.children_view() =~= Seq::<Seq<usize>>::empty());
        assert(r.depth_view() =~= Seq::<int>::empty());
        r
    }

    /// Number of nodes.
    pub fn node_count(&self) -> (r: usize)
        ensures
            r == self.len(),
    {
        self.payloads.len()
    }

    /// The highest depth of any node.
    pub fn max_depth(&self) -> (r: usize)
        ensures
            r == self.max_depth_view(),
    {
        self.max_depth
    }

    /// The depth of node `id`.
    pub fn depth(&self, id: NodeId) -> (r: usize)
        requires
            self.wf(),
            id.index < self.len(),
        ensures
            r == self.depth_view()[id.index as int],
    {
        self.depths[id.index]
    }

    /// The children of node `id`, in the order the edges were added.
    pub fn children(&self, id: NodeId) -> (r: &Vec<usize>)
        requires
            self.wf(),
            id.index < self.len(),
        ensures
            r@ == self.children_view()[id.index as int],
    {
        &self.children[id.index]
    }

    /// The payload of node `id`.
    pub fn payload(&self, id: NodeId) -> (r: &T)
        requires
            self.wf(),
            id.index < self.len(),
        ensures
            *r == self.payload_view()[id.index as int],
    {
        &self.payloads[id.index]
    }

    /// Adds a node with no parent. A new node is a root, of depth 0, which
    /// no bound refuses, so this always succeeds and returns the next id.
    pub fn add_node(&mut self, data: T) -> (r: Result<NodeId, DepthViolation>)
        requires
            old(self).wf(),
            old(self).len() < usize::MAX,
        ensures
            final(self).wf(),
            r == Ok::<NodeId, DepthViolation>(NodeId { index: old(self).len() as usize }),
            final(self).len() == old(self).len() + 1,
            final(self).payload_view() == old(self).payload_view().push(data),
            final(self).children_view() == old(self).children_view().push(Seq::<usize>::empty()),
            final(self).depth_view() == old(self).depth_view().push(0),
            final(self).max_depth_view() == old(self).max_depth_view(),
    {
        let ghost ch0 = self.children_view();
        let ghost d0 = self.depth_view();
        let ghost n0 = self.len();
        proof {
            lemma_ceil_log2_monotone(n0, n0 + 1);
        }
        let id = self.payloads.len();
        self.payloads.push(data);
        self.children.push(Vec::new());
        self.depths.push(0);
        proof {
            let ch = self.children_view();
            let d = self.depth_view();
            assert(ch =~= ch0.push(Seq::<usize>::empty()));
            assert(d =~= d0.push(0));
            assert forall|p: int, j: int| 0 <= p < ch.len() && 0 <= j < ch[p].len() implies
                #[trigger] ch[p][j] < ch.len() && d[ch[p][j] as int] >= d[p] + 1 by {
                assert(ch0[p][j] == ch[p][j]);
            }
            assert forall|c: int| 0 <= c < d.len() implies #[trigger] d[c] == 0 || exists|p: int, j: int|
                0 <= p < ch.len() && 0 <= j < ch[p].len() && ch[p][j] == c && d[c] <= d[p] + 1 by {
                if c < n0 && d[c] != 0 {
                    let (p, j) = choose|p: int, j: int|
                        0 <= p < ch0.len() && 0 <= j < ch0[p].len() && ch0[p][j] == c && d0[c] <= d0[p] + 1;
                    assert(ch[p][j] == ch0[p][j]);
                }
            }
            if self.max_depth != 0 {
                let i = choose|i: int| 0 <= i < n0 && d0[i] == self.max_depth as int;
                assert(d[i] == self.max_depth as int);
            }
        }
        Ok(NodeId { index: id })
    }
    /// Adds a node as a new child of `parent`, at one level below it, in a
    /// single step. Refused, with the graph unchanged, when that depth
    /// exceeds `ceil(log2(n + 1))` for the grown node count.
    #[verifier::rlimit(100)]
    #[verifier::spinoff_prover]
    pub fn add_child(&mut self, parent: NodeId, data: T) -> (r: Result<NodeId, DepthViolation>)
        requires
            old(self).wf(),
            parent.index < old(self).len(),
            old(self).len() < usize::MAX,
            old(self).children_view()[parent.index as int].len() < usize::MAX,
        ensures
            final(self).wf(),
            (r is Err) <==> old(self).depth_view()[parent.index as int] + 1 > ceil_log2(old(self).len() + 1),
            r is Err ==> r == Err::<NodeId, DepthViolation>(DepthViolation::ExceedsLogN) && *final(self) == *old(self),
            r is Ok ==> r == Ok::<NodeId, DepthViolation>(NodeId { index: old(self).len() as usize })
                && final(self).len() == old(self).len() + 1
                && final(self).payload_view() == old(self).payload_view().push(data)
                && final(self).children_view() == with_edge(
                    old(self).children_view().push(Seq::<usize>::empty()), parent.index as int, old(self).len() as int)
                && final(self).depth_view() == old(self).depth_view().push(old(self).depth_view()[parent.index as int] + 1),
    {
        let n = self.payloads.len();
        let b = ceil_log2_exec(n + 1);
        if self.depths[parent.index] >= b {
            return Err(DepthViolation::ExceedsLogN);
        }
        let v = self.depths[parent.index] + 1;
        let ghost ch0 = self.children_view();
        let ghost d0 = self.depth_view();
        let ghost md0 = self.max_depth;
        proof {
            lemma_ceil_log2_monotone(n as nat, (n + 1) as nat);
        }
        let id = self.add_node(data).unwrap();
        let ghost ch1 = self.children_view();
        let ghost d1 = self.depth_view();
        let p = parent.index;
        let mut list = self.children[p].clone();
        assert(list@ =~= ch1[p as int]);
        list.push(id.index);
        self.children.set(p, list);
        self.depths.set(id.index, v);
        if v > self.max_depth {
            self.max_depth = v;
        }
        proof {
            let ch = self.children_view();
            let d = self.depth_view();
            assert(ch =~= with_edge(ch1, p as int, n as int));
            assert(d1 == d0.push(0));
            assert(d =~= d1.update(n as int, v as int));
            assert(d =~= d0.push(v as int));
            assert forall|q: int, j: int| 0 <= q < ch.len() && 0 <= j < ch[q].len() implies
                #[trigger] ch[q][j] < ch.len() && d[ch[q][j] as int] >= d[q] + 1 by {
                if q != p as int || j < ch1[q].len() {
                    assert(ch[q][j] == ch1[q][j]);
                    assert(ch1[q][j] == ch0[q][j]);
                }
            }
            assert forall|c: int| 0 <= c < d.len() implies #[trigger] d[c] == 0 || exists|q: int, j: int|
                0 <= q < ch.len() && 0 <= j < ch[q].len() && ch[q][j] == c && d[c] <= d[q] + 1 by {
                if c == n as int {
                    assert(ch[p as int][ch1[p as int].len() as int] == c);
                } else if d[c] != 0 {
                    let (q, j) = choose|q: int, j: int|
                        0 <= q < ch0.len() && 0 <= j < ch0[q].len() && ch0[q][j] == c && d0[c] <= d0[q] + 1;
                    assert(ch1[q][j] == ch0[q][j]);
                    assert(ch[q][j] == ch1[q][j]);
                }
            }
            if self.max_depth as int == v as int {
                assert(d[n as int] == v as int);
            } else if self.max_depth != 0 {
                let i = choose|i: int| 0 <= i < n && d0[i] == md0 as int;
                assert(d[i] == md0 as int);
            }
        }
        Ok(id)
    }

    /// Whether `to` can be reached from `from` by following edges (every
    /// node reaches itself).
    #[verifier::rlimit(30)]
    pub fn is_reachable(&self, from: NodeId, to: NodeId) -> (r: bool)
        requires
            self.wf(),
            from.index < self.len(),
            to.index < self.len(),
        ensures
            r == reaches(self.children_view(), from.index as int, to.index as int),
    {
        let ghost ch = self.children_view();
        let n = self.children.len();
        let mut vis: Vec<bool> = Vec::new();
        let mut k: usize = 0;
        while k < n
            invariant
                k <= n,
                n == ch.len(),
                vis@.len() == k,
                forall|i: int| 0 <= i < k ==> !#[trigger] vis@[i],
            decreases n - k,
        {
            vis.push(false);
            k = k + 1;
        }
        proof {
            lemma_count_false_set(vis@, from.index as int);
            lemma_reaches_self(ch, from.index as int);
        }
        vis.set(from.index, true);
        let mut stack: Vec<usize> = Vec::new();
        stack.push(from.index);
        assert(stack@[0] == from.index);
        assert(stack@.contains(from.index));
        while stack.len() > 0
            invariant
                n == ch.len(),
                ch == self.children_view(),
                self.wf(),
                from.index < n,
                vis@.len() == n,
                vis@[from.index as int],
                forall|i: int| 0 <= i < n && #[trigger] vis@[i] ==> reaches(ch, from.index as int, i),
                forall|t: int| 0 <= t < stack@.len() ==> #[trigger] stack@[t] < n && vis@[stack@[t] as int],
                forall|i: int, j: int|
                    0 <= i < n && 0 <= j < ch[i].len() && vis@[i] && !stack@.contains(i as usize)
                        ==> vis@[#[trigger] ch[i][j] as int],
            decreases 2 * count_false(vis@) + stack@.len(),
        {
            let ghost m0 = 2 * count_false(vis@) + stack@.len();
            let ghost before = stack@;
            let x = stack.pop().unwrap();
            assert(before =~= stack@.push(x));
            assert(vis@[x as int]);
            assert forall|i: int, jj: int|
                0 <= i < n && i != x && 0 <= jj < ch[i].len() && vis@[i] && !stack@.contains(i as usize)
                    implies vis@[#[trigger] ch[i][jj] as int] by {
                lemma_push_contains(stack@, x, i as usize);
            }
            let kids = &self.children[x];
            assert(kids@ == ch[x as int]);
            let mut j: usize = 0;
            while j < kids.len()
                invariant
                    n == ch.len(),
                    ch == self.children_view(),
                    self.wf(),
                    kids@ == ch[x as int],
                    x < n,
                    j <= kids@.len(),
                    vis@.len() == n,
                    vis@[from.index as int],
                    vis@[x as int],
                    forall|i: int| 0 <= i < n && #[trigger] vis@[i] ==> reaches(ch, from.index as int, i),
                    forall|t: int| 0 <= t < stack@.len() ==> #[trigger] stack@[t] < n && vis@[stack@[t] as int],
                    forall|i: int, jj: int|
                        0 <= i < n && i != x && 0 <= jj < ch[i].len() && vis@[i] && !stack@.contains(i as usize)
                            ==> vis@[#[trigger] ch[i][jj] as int],
                    forall|jj: int| 0 <= jj < j ==> vis@[#[trigger] ch[x as int][jj] as int],
                    2 * count_false(vis@) + stack@.len() < m0,
                decreases kids@.len() - j,
            {
                let c = kids[j];
                assert(c as int == ch[x as int][j as int]);
                if !vis[c] {
                    proof {
                        lemma_count_false_set(vis@, c as int);
                        lemma_reaches_step(ch, from.index as int, x as int, j as int);
                    }
                    let ghost st0 = stack@;
                    vis.set(c, true);
                    stack.push(c);
                    proof {
                        assert forall|i: int, jj: int|
                            0 <= i < n && i != x && 0 <= jj < ch[i].len() && vis@[i] && !stack@.contains(i as usize)
                                implies vis@[#[trigger] ch[i][jj] as int] by {
                            lemma_push_contains(st0, c, i as usize);
                        }
                    }
                }
                j = j + 1;
            }
            proof {
                assert forall|i: int, jj: int|
                    0 <= i < n && 0 <= jj < ch[i].len() && vis@[i] && !stack@.contains(i as usize)
                        implies vis@[#[trigger] ch[i][jj] as int] by {
                    if i == x as int {
                        assert(vis@[ch[x as int][jj] as int]);
                    }
                }
            }
        }
        proof {
            assert forall|i: int, jj: int|
                0 <= i < ch.len() && 0 <= jj < ch[i].len() && vis@[i] implies vis@[#[trigger] ch[i][jj] as int] by {
                assert(!stack@.contains(i as usize));
            }
            if reaches(ch, from.index as int, to.index as int) {
                let s = choose|s: Seq<int>| is_path(ch, s) && s[0] == from.index as int && s.last() == to.index as int;
                lemma_closed_holds_path(ch, vis@, s);
            }
        }
        vis[to.index]
    }

    /// Adds the edge `parent -> child` and lifts the depths of `child` and
    /// of its descendants to their new longest-path values. Refused, with
    /// the graph unchanged, when `child` already reaches `parent` (a cycle),
    /// or else when no depth labelling of the new graph stays within
    /// `ceil(log2(n))`.
    #[verifier::rlimit(100)]
    #[verifier::spinoff_prover]
    pub fn add_edge(&mut self, parent: NodeId, child: NodeId) -> (r: Result<(), EdgeError>)
        requires
            old(self).wf(),
            parent.index < old(self).len(),
            child.index < old(self).len(),
            old(self).children_view()[parent.index as int].len() < usize::MAX,
        ensures
            final(self).wf(),
            final(self).len() == old(self).len(),
            final(self).payload_view() == old(self).payload_view(),
            r is Err ==> final(self).children_view() == old(self).children_view()
                && final(self).depth_view() == old(self).depth_view()
                && final(self).max_depth_view() == old(self).max_depth_view(),
            r is Ok ==> final(self).children_view()
                == with_edge(old(self).children_view(), parent.index as int, child.index as int),
            (r == Err::<(), EdgeError>(EdgeError::Cycle(CycleViolation { parent: parent.index, child: child.index })))
                <==> reaches(old(self).children_view(), child.index as int, parent.index as int),
            (r == Err::<(), EdgeError>(EdgeError::Depth(DepthViolation::ExceedsLogN))) <==> (
                !reaches(old(self).children_view(), child.index as int, parent.index as int)
                && !boundable(
                    with_edge(old(self).children_view(), parent.index as int, child.index as int),
                    ceil_log2(old(self).len()) as int,
                )),
            r is Ok <==> (
                !reaches(old(self).children_view(), child.index as int, parent.index as int)
                && boundable(
                    with_edge(old(self).children_view(), parent.index as int, child.index as int),
                    ceil_log2(old(self).len()) as int,
                )),
    {
        if self.is_reachable(child, parent) {
            return Err(EdgeError::Cycle(CycleViolation { parent: parent.index, child: child.index }));
        }
        self.add_edge_acyclic(parent, child)
    }

    /// `add_edge` once the edge is known to close no cycle.
    #[verifier::rlimit(100)]
    #[verifier::spinoff_prover]
    fn add_edge_acyclic(&mut self, parent: NodeId, child: NodeId) -> (r: Result<(), EdgeError>)
        requires
            old(self).wf(),
            parent.index < old(self).len(),
            child.index < old(self).len(),
            old(self).children_view()[parent.index as int].len() < usize::MAX,
            !reaches(old(self).children_view(), child.index as int, parent.index as int),
        ensures
            final(self).wf(),
            final(self).len() == old(self).len(),
            final(self).payload_view() == old(self).payload_view(),
            r is Err ==> final(self).children_view() == old(self).children_view()
                && final(self).depth_view() == old(self).depth_view()
                && final(self).max_depth_view() == old(self).max_depth_view(),
            r is Ok ==> final(self).children_view()
                == with_edge(old(self).children_view(), parent.index as int, child.index as int),
            r is Err ==> r == Err::<(), EdgeError>(EdgeError::Depth(DepthViolation::ExceedsLogN)),
            r is Ok <==> boundable(
                with_edge(old(self).children_view(), parent.index as int, child.index as int),
                ceil_log2(old(self).len()) as int,
            ),
    {
        let n = self.payloads.len();
        let b = ceil_log2_exec(n);
        let p = parent.index;
        let c = child.index;
        let ghost ch = self.children_view();
        let ghost ch2 = with_edge(ch, p as int, c as int);
        let ghost d0 = self.depth_view();
        let ghost lp = ch[p as int].len() as int;
        assert(c != p) by {
            lemma_reaches_self(ch, c as int);
        }
        let mut d = self.copy_depths();
        assert(depth_seq(d@) =~= d0);
        proof {
            lemma_edge_start(ch, d0, p as int, c as int);
        }
        let mut wl: Vec<usize> = Vec::new();
        assert(ch2[p as int][lp] == c);
        if d[c] <= d[p] {
            if d[p] >= b {
                proof {
                    lemma_cannot_raise(ch2, d0, b as int, p as int, lp);
                }
                return Err(EdgeError::Depth(DepthViolation::ExceedsLogN));
            }
            proof {
                lemma_raise(ch2, d0, Seq::<usize>::empty(), b as int, p as int, lp);
                lemma_reaches_self(ch, c as int);
            }
            let v = d[p] + 1;
            d.set(c, v);
            wl.push(c);
            assert(depth_seq(d@) =~= d0.update(c as int, d0[p as int] + 1));
            assert(wl@ =~= Seq::<usize>::empty().push(c));
        }
        proof {
            let dv = depth_seq(d@);
            assert(settled(ch2, dv, wl@, -1, 0)) by {
                assert forall|q: int, j: int|
                    0 <= q < ch2.len() && 0 <= j < ch2[q].len() && !wl@.contains(q as usize) && (q != -1 || j < 0)
                        implies dv[#[trigger] ch2[q][j] as int] >= dv[q] + 1 by {
                    if q == p as int && j == lp {
                    } else {
                        assert(j < ch2[q].len());
                    }
                }
            }
        }
        let ok = lift_depths(&self.children, &mut d, &mut wl, b, Ghost(ch), Ghost(ch2), Ghost(d0), Ghost(p as int), Ghost(c as int));
        if !ok {
            return Err(EdgeError::Depth(DepthViolation::ExceedsLogN));
        }
        proof {
            assert(boundable(ch2, b as int));
        }
        let md = max_entry(&d);
        proof {
            if self.max_depth != 0 {
                let i = choose|i: int| 0 <= i < n && #[trigger] d0[i] == self.max_depth as int;
                assert(depth_seq(d@)[i] >= d0[i]);
            }
        }
        self.commit_edge(p, c, d, md);
        Ok(())
    }
    /// A copy of the depth vector.
    fn copy_depths(&self) -> (d: Vec<usize>)
        ensures
            depth_seq(d@) == self.depth_view(),
    {
        let n = self.depths.len();
        let mut d: Vec<usize> = Vec::new();
        let mut k: usize = 0;
        while k < n
            invariant
                k <= n,
                n == self.depths@.len(),
                d@.len() == k,
                forall|i: int| 0 <= i < k ==> #[trigger] d@[i] == self.depths@[i],
            decreases n - k,
        {
            d.push(self.depths[k]);
            k = k + 1;
        }
        assert(depth_seq(d@) =~= self.depth_view());
        d
    }

    /// Appends the edge `p -> c` and installs the lifted depths `d`.
    #[verifier::spinoff_prover]
    fn commit_edge(&mut self, p: usize, c: usize, d: Vec<usize>, md: usize)
        requires
            old(self).wf(),
            p < old(self).len(),
            c < old(self).len(),
            old(self).children_view()[p as int].len() < usize::MAX,
            d@.len() == old(self).len(),
            exact_depths(with_edge(old(self).children_view(), p as int, c as int), depth_seq(d@)),
            bounded(depth_seq(d@), ceil_log2(old(self).len()) as int),
            bounded(depth_seq(d@), md as int),
            md <= ceil_log2(old(self).len()),
            old(self).max_depth_view() <= md,
            md == old(self).max_depth_view() || exists|i: int| 0 <= i < d@.len() && #[trigger] depth_seq(d@)[i] == md as int,
            forall|i: int| 0 <= i < d@.len() ==> #[trigger] depth_seq(d@)[i] >= old(self).depth_view()[i],
        ensures
            final(self).wf(),
            final(self).len() == old(self).len(),
            final(self).payload_view() == old(self).payload_view(),
            final(self).children_view() == with_edge(old(self).children_view(), p as int, c as int),
    {
        let ghost ch = self.children_view();
        let ghost d0 = self.depth_view();
        let ghost n = self.len();
        let ghost md0 = self.max_depth;
        let mut list = self.children[p].clone();
        assert(list@ =~= ch[p as int]);
        list.push(c);
        self.children.set(p, list);
        self.depths = d;
        self.max_depth = md;
        proof {
            let ch2 = with_edge(ch, p as int, c as int);
            assert(self.children_view() =~= ch2);
            assert forall|q: int, j: int| 0 <= q < ch2.len() && 0 <= j < ch2[q].len()
                implies #[trigger] ch2[q][j] < ch2.len() by {
                if q != p as int || j < ch[p as int].len() {
                    assert(ch2[q][j] == ch[q][j]);
                }
            }
            if md != 0 && md == md0 {
                let i = choose|i: int| 0 <= i < n && d0[i] == md as int;
                assert(self.depth_view()[i] >= d0[i]);
            }
        }
    }

    /// The frame check of the traversal: with `stack` holding the frames
    /// pending above `node`, fails when room for one more would pass
    /// `max_size`, and otherwise pushes and pops `node`'s frame.
    pub fn dfs_bounded(&self, node: NodeId, stack: &mut Vec<usize>, max_size: usize) -> (r: Result<(), AuxSpaceViolation>)
        requires
            self.wf(),
            node.index < self.len(),
        ensures
            final(stack)@ == old(stack)@,
            (r is Err) <==> old(stack)@.len() >= max_size,
            r is Err ==> r == Err::<(), AuxSpaceViolation>(AuxSpaceViolation::StackOverflow),
    {
        if stack.len() >= max_size {
            return Err(AuxSpaceViolation::StackOverflow);
        }
        stack.push(node.index);
        let _ = stack.pop();
        Ok(())
    }

    /// Whether every parent of `c` has status 1 in `st`.
    fn parents_done(&self, c: usize, st: &Vec<u8>) -> (r: bool)
        requires
            self.wf(),
            st@.len() == self.len(),
        ensures
            r == parents_marked(self.children_view(), st@, c as int),
    {
        let ghost ch = self.children_view();
        let n = self.children.len();
        let mut ok = true;
        let mut p: usize = 0;
        while p < n
            invariant
                self.wf(),
                ch == self.children_view(),
                n == ch.len(),
                st@.len() == n,
                p <= n,
                ok == forall|q: int, j: int| 0 <= q < p && 0 <= j < ch[q].len() && #[trigger] ch[q][j] as int == c as int ==> st@[q] == 1,
            decreases n - p,
        {
            let kids = &self.children[p];
            assert(kids@ == ch[p as int]);
            let mut j: usize = 0;
            let ghost ok0 = ok;
            while j < kids.len()
                invariant
                    self.wf(),
                    ch == self.children_view(),
                    n == ch.len(),
                    st@.len() == n,
                    p < n,
                    kids@ == ch[p as int],
                    j <= kids@.len(),
                    ok0 == forall|q: int, jj: int| 0 <= q < p && 0 <= jj < ch[q].len() && #[trigger] ch[q][jj] as int == c as int ==> st@[q] == 1,
                    ok == (ok0 && forall|jj: int| 0 <= jj < j && #[trigger] ch[p as int][jj] as int == c as int ==> st@[p as int] == 1),
                decreases kids@.len() - j,
            {
                if kids[j] == c && st[p] != 1 {
                    ok = false;
                }
                j = j + 1;
            }
            proof {
                assert(ok == forall|q: int, jj: int| 0 <= q < p + 1 && 0 <= jj < ch[q].len() && #[trigger] ch[q][jj] as int == c as int ==> st@[q] == 1) by {
                    if ok {
                        assert forall|q: int, jj: int| 0 <= q < p + 1 && 0 <= jj < ch[q].len() && #[trigger] ch[q][jj] as int == c as int
                            implies st@[q] == 1 by {
                            if q == p as int {
                                assert(ch[p as int][jj] as int == c as int);
                            }
                        }
                    }
                }
            }
            p = p + 1;
        }
        ok
    }

    /// Visits the nodes level by level, in ascending (depth, id) order, so
    /// that every node comes after all of its parents and roots come in id
    /// order. A node is visited exactly when all of its parents were visited
    /// with success; a failed visit skips the nodes below it and nothing
    /// else. The visitor is called once on each listed node, in list order,
    /// and each recorded result is its answer.
    ///
    /// A pending frame is one level still open above the node being
    /// visited: a node of depth `k` has `k` of them, at most `ceil(log2(n))`
    /// by the depth bound. The frame check counts the visited node's own
    /// frame on top, so its limit is one more, and it never fails on a
    /// well-formed graph. Besides the frames, the traversal keeps one status
    /// byte per node: whether it was visited, and with what result.
    #[verifier::rlimit(100)]
    pub fn traverse<E, V: Visitor<T, E>>(&self, visitor: &mut V) -> (r: Result<Vec<(NodeId, Result<(), E>)>, AuxSpaceViolation>)
        requires
            self.wf(),
        ensures
            r is Ok,
            r is Ok ==> traversal_report(self.depth_view(), self.children_view(), r->Ok_0@),
            r is Ok ==> final(visitor).calls() == old(visitor).calls() + visited_nodes(r->Ok_0@),
            r is Ok ==> forall|t: int| 0 <= t < r->Ok_0@.len() ==> (#[trigger] r->Ok_0@[t]).1
                == old(visitor).result_of(self.payload_view()[r->Ok_0@[t].0.index as int]),
            forall|p: T| #[trigger] final(visitor).result_of(p) == old(visitor).result_of(p),
    {
        let ghost calls0 = visitor.calls();
        let ghost v0 = *visitor;
        let ghost ch = self.children_view();
        let ghost dv = self.depth_view();
        let n = self.payloads.len();
        let mut st: Vec<u8> = Vec::new();
        let mut k: usize = 0;
        while k < n
            invariant
                k <= n,
                st@.len() == k,
                forall|q: int| 0 <= q < k ==> #[trigger] st@[q] == 0,
            decreases n - k,
        {
            st.push(0);
            k = k + 1;
        }
        let mut out: Vec<(NodeId, Result<(), E>)> = Vec::new();
        let mut frames: Vec<usize> = Vec::new();
        let mut level: usize = 0;
        let top = self.max_depth;
        let max_frames = ceil_log2_exec(n) + 1;
        while level <= top
            invariant
                self.wf(),
                ch == self.children_view(),
                dv == self.depth_view(),
                n == self.len(),
                top == self.max_depth_view(),
                top < max_frames,
                max_frames <= usize::MAX,
                visitor.calls() == calls0 + visited_nodes(out@),
                forall|p: T| #[trigger] visitor.result_of(p) == v0.result_of(p),
                forall|t: int| 0 <= t < out@.len() ==> (#[trigger] out@[t]).1
                    == v0.result_of(self.payload_view()[out@[t].0.index as int]),
                frames@.len() == level,
                st@.len() == n,
                level <= top + 1,
                forall|q: int| 0 <= q < n ==> (#[trigger] st@[q] != 0 <==> listed(out@, q)),
                forall|q: int| 0 <= q < n ==> (#[trigger] st@[q] == 1 <==> listed_ok(out@, q)),
                forall|q: int| 0 <= q < n && dv[q] >= level ==> #[trigger] st@[q] == 0,
                forall|q: int| 0 <= q < n && dv[q] < level ==> (#[trigger] st@[q] != 0 <==> parents_marked(ch, st@, q)),
                forall|t: int| 0 <= t < out@.len() ==> (#[trigger] out@[t]).0.index < n && dv[out@[t].0.index as int] < level,
                forall|s: int, t: int| 0 <= s < t < out@.len() ==>
                    key_before(dv, (#[trigger] out@[s]).0.index as int, (#[trigger] out@[t]).0.index as int),
            decreases top + 1 - level,
        {
            let mut i: usize = 0;
            while i < n
                invariant
                    self.wf(),
                    ch == self.children_view(),
                    dv == self.depth_view(),
                    n == self.len(),
                    top == self.max_depth_view(),
                    top < max_frames,
                    level <= top,
                    visitor.calls() == calls0 + visited_nodes(out@),
                    forall|p: T| #[trigger] visitor.result_of(p) == v0.result_of(p),
                    forall|t: int| 0 <= t < out@.len() ==> (#[trigger] out@[t]).1
                        == v0.result_of(self.payload_view()[out@[t].0.index as int]),
                    frames@.len() == level,
                    st@.len() == n,
                    i <= n,
                    forall|q: int| 0 <= q < n ==> (#[trigger] st@[q] != 0 <==> listed(out@, q)),
                    forall|q: int| 0 <= q < n ==> (#[trigger] st@[q] == 1 <==> listed_ok(out@, q)),
                    forall|q: int| 0 <= q < n && (dv[q] > level || (dv[q] == level && q >= i)) ==> #[trigger] st@[q] == 0,
                    forall|q: int| 0 <= q < n && (dv[q] < level || (dv[q] == level && q < i))
                        ==> (#[trigger] st@[q] != 0 <==> parents_marked(ch, st@, q)),
                    forall|t: int| 0 <= t < out@.len() ==> (#[trigger] out@[t]).0.index < n
                        && (dv[out@[t].0.index as int] < level || (dv[out@[t].0.index as int] == level && out@[t].0.index < i)),
                    forall|s: int, t: int| 0 <= s < t < out@.len() ==>
                        key_before(dv, (#[trigger] out@[s]).0.index as int, (#[trigger] out@[t]).0.index as int),
                decreases n - i,
            {
                if self.depths[i] == level {
                    let id = NodeId { index: i };
                    match self.dfs_bounded(id, &mut frames, max_frames) {
                        Err(e) => {
                            return Err(e);
                        },
                        Ok(()) => {},
                    }
                    let go = self.parents_done(i, &st);
                    if go {
                        let res = visitor.visit(id, &self.payloads[i]);
                        let s: u8 = if res.is_ok() { 1 } else { 2 };
                        let ghost out0 = out@;
                        let ghost st0 = st@;
                        let ghost e = (id, res);
                        out.push((id, res));
                        st.set(i, s);
                        proof {
                            assert(out@ == out0.push(e));
                            assert(visited_nodes(out@) =~= visited_nodes(out0).push(id));
                            assert(calls0 + visited_nodes(out@) =~= (calls0 + visited_nodes(out0)).push(id));
                            assert forall|t: int| 0 <= t < out@.len() implies (#[trigger] out@[t]).1
                                == v0.result_of(self.payload_view()[out@[t].0.index as int]) by {
                                if t < out0.len() {
                                    assert(out@[t] == out0[t]);
                                }
                            }
                            assert forall|q: int| 0 <= q < n implies (#[trigger] st@[q] != 0 <==> listed(out@, q))
                                && (st@[q] == 1 <==> listed_ok(out@, q)) by {
                                lemma_listed_push(out0, e, q);
                            }
                            assert forall|q: int| 0 <= q < n && (dv[q] < level || (dv[q] == level && q < i + 1))
                                implies (#[trigger] st@[q] != 0 <==> parents_marked(ch, st@, q)) by {
                                assert forall|p: int, j: int| 0 <= p < ch.len() && 0 <= j < ch[p].len() && #[trigger] ch[p][j] as int == q
                                    implies p != i as int by {
                                    assert(dv[ch[p][j] as int] >= dv[p] + 1);
                                }
                                assert(parents_marked(ch, st@, q) == parents_marked(ch, st0, q));
                            }
                            assert forall|t: int| 0 <= t < out@.len() - 1 implies
                                key_before(dv, (#[trigger] out@[t]).0.index as int, i as int) by {
                                assert(out@[t] == out0[t]);
                            }
                        }
                    } else {
                        proof {
                            assert forall|q: int| 0 <= q < n && (dv[q] < level || (dv[q] == level && q < i + 1))
                                implies (#[trigger] st@[q] != 0 <==> parents_marked(ch, st@, q)) by {
                            }
                        }
                    }
                }
                i = i + 1;
            }
            frames.push(level);
            level = level + 1;
        }
        proof {
            assert forall|i: int| 0 <= i < n implies (#[trigger] listed(out@, i) <==> parents_ok(ch, out@, i)) by {
                assert(st@[i] != 0 <==> parents_marked(ch, st@, i));
                assert(parents_marked(ch, st@, i) == parents_ok(ch, out@, i)) by {
                    assert forall|p: int, j: int| 0 <= p < ch.len() && 0 <= j < ch[p].len() && #[trigger] ch[p][j] as int == i
                        implies (st@[p] == 1 <==> listed_ok(out@, p)) by {
                    }
                }
            }
        }
        Ok(out)
    }
}


/// The largest entry of `d` (0 when empty).
fn max_entry(d: &Vec<usize>) -> (m: usize)
    ensures
        bounded(depth_seq(d@), m as int),
        m == 0 || exists|i: int| 0 <= i < d@.len() && #[trigger] depth_seq(d@)[i] == m as int,
{
    let mut m: usize = 0;
    let mut k: usize = 0;
    while k < d.len()
        invariant
            k <= d@.len(),
            forall|i: int| 0 <= i < k ==> #[trigger] depth_seq(d@)[i] <= m as int,
            m == 0 || exists|i: int| 0 <= i < k && #[trigger] depth_seq(d@)[i] == m as int,
        decreases d@.len() - k,
    {
        if d[k] > m {
            m = d[k];
            assert(depth_seq(d@)[k as int] == m as int);
        }
        k = k + 1;
    }
    m
}

/// Lifts depths along the edges of `ch2` until every edge goes at least one
/// level down, starting from the nodes of `wl`. Fails, with no valid
/// labelling of `ch2` within `b`, when a node would have to pass `b`.
#[verifier::rlimit(100)]
fn lift_depths(
    children: &Vec<Vec<usize>>,
    d: &mut Vec<usize>,
    wl: &mut Vec<usize>,
    b: usize,
    Ghost(ch): Ghost<Seq<Seq<usize>>>,
    Ghost(ch2): Ghost<Seq<Seq<usize>>>,
    Ghost(d0): Ghost<Seq<int>>,
    Ghost(p): Ghost<int>,
    Ghost(c): Ghost<int>,
) -> (ok: bool)
    requires
        children@.map_values(|v: Vec<usize>| v@) == ch,
        edges_in_range(ch),
        valid_labelling(ch, d0),
        ch2 == with_edge(ch, p, c),
        edges_in_range(ch2),
        0 <= p < ch.len(),
        0 <= c < ch.len(),
        !reaches(ch, c, p),
        ch.len() <= usize::MAX,
        old(d)@.len() == ch.len(),
        d0.len() == ch.len(),
        bounded(depth_seq(old(d)@), b as int),
        forall|i: int| 0 <= i < ch.len() ==> #[trigger] depth_seq(old(d)@)[i] >= d0[i],
        forall|i: int| 0 <= i < ch.len() && depth_seq(old(d)@)[i] != d0[i] ==> reaches(ch, c, i),
        forall|t: int| 0 <= t < old(wl)@.len() ==> #[trigger] old(wl)@[t] < ch.len() && reaches(ch, c, old(wl)@[t] as int),
        settled(ch2, depth_seq(old(d)@), old(wl)@, -1, 0),
        tight(ch2, depth_seq(old(d)@)),
        minimal(ch2, depth_seq(old(d)@)),
    ensures
        final(d)@.len() == ch.len(),
        ok ==> valid_labelling(ch2, depth_seq(final(d)@)),
        ok ==> tight(ch2, depth_seq(final(d)@)),
        ok ==> bounded(depth_seq(final(d)@), b as int),
        ok ==> forall|i: int| 0 <= i < ch.len() ==> #[trigger] depth_seq(final(d)@)[i] >= d0[i],
        !ok ==> !boundable(ch2, b as int),
{
    let ghost n = ch.len();
    while wl.len() > 0
        invariant
            ch.len() == n,
            n <= usize::MAX,
            children@.map_values(|v: Vec<usize>| v@) == ch,
            d0.len() == n,
            edges_in_range(ch),
            valid_labelling(ch, d0),
            ch2 == with_edge(ch, p as int, c as int),
            edges_in_range(ch2),
            0 <= p < n,
            0 <= c < n,
            !reaches(ch, c as int, p as int),
            d@.len() == n,
            bounded(depth_seq(d@), b as int),
            forall|i: int| 0 <= i < n ==> #[trigger] depth_seq(d@)[i] >= d0[i],
            forall|i: int| 0 <= i < n && depth_seq(d@)[i] != d0[i] ==> reaches(ch, c as int, i),
            forall|t: int| 0 <= t < wl@.len() ==> #[trigger] wl@[t] < n && reaches(ch, c as int, wl@[t] as int),
            settled(ch2, depth_seq(d@), wl@, -1, 0),
            tight(ch2, depth_seq(d@)),
            minimal(ch2, depth_seq(d@)),
        decreases 2 * slack(depth_seq(d@), b as int) + wl@.len(),
    {
        let ghost m0 = 2 * slack(depth_seq(d@), b as int) + wl@.len();
        let ghost before = wl@;
        let x = wl.pop().unwrap();
        assert(before =~= wl@.push(x));
        assert(reaches(ch, c as int, x as int));
        assert(x as int != p);
        assert(ch2[x as int] == ch[x as int]);
        proof {
            lemma_slack_nonneg(depth_seq(d@), b as int);
            assert(settled(ch2, depth_seq(d@), wl@, x as int, 0)) by {
                let dv = depth_seq(d@);
                assert forall|q: int, j: int|
                    0 <= q < ch2.len() && 0 <= j < ch2[q].len() && !wl@.contains(q as usize) && (q != x || j < 0)
                        implies dv[#[trigger] ch2[q][j] as int] >= dv[q] + 1 by {
                    lemma_push_contains(wl@, x, q as usize);
                    assert(!before.contains(q as usize));
                }
            }
        }
        let kids = &children[x];
        assert(children@.map_values(|v: Vec<usize>| v@)[x as int] == children@[x as int]@);
        assert(kids@ == ch[x as int]);
        assert(kids@ == ch2[x as int]);
        let mut j: usize = 0;
        while j < kids.len()
            invariant
                ch.len() == n,
                n <= usize::MAX,
                children@.map_values(|v: Vec<usize>| v@) == ch,
                d0.len() == n,
                edges_in_range(ch),
                valid_labelling(ch, d0),
                        ch2 == with_edge(ch, p as int, c as int),
                edges_in_range(ch2),
                0 <= p < n,
                0 <= c < n,
                x < n,
                x != p,
                kids@ == ch2[x as int],
                j <= kids@.len(),
                reaches(ch, c as int, x as int),
                !reaches(ch, c as int, p as int),
                d@.len() == n,
                bounded(depth_seq(d@), b as int),
                forall|i: int| 0 <= i < n ==> #[trigger] depth_seq(d@)[i] >= d0[i],
                forall|i: int| 0 <= i < n && depth_seq(d@)[i] != d0[i] ==> reaches(ch, c as int, i),
                forall|t: int| 0 <= t < wl@.len() ==> #[trigger] wl@[t] < n && reaches(ch, c as int, wl@[t] as int),
                settled(ch2, depth_seq(d@), wl@, x as int, j as int),
                tight(ch2, depth_seq(d@)),
                minimal(ch2, depth_seq(d@)),
                2 * slack(depth_seq(d@), b as int) + wl@.len() < m0,
            decreases kids@.len() - j,
        {
            let y = kids[j];
            assert(y as int == ch2[x as int][j as int]);
            assert(y != x) by {
                assert(ch[x as int][j as int] == y);
                assert(d0[ch[x as int][j as int] as int] >= d0[x as int] + 1);
            }
            if d[y] <= d[x] {
                if d[x] >= b {
                    proof {
                        lemma_cannot_raise(ch2, depth_seq(d@), b as int, x as int, j as int);
                    }
                    return false;
                }
                proof {
                    lemma_slack_nonneg(depth_seq(d@), b as int);
                    lemma_raise(ch2, depth_seq(d@), wl@, b as int, x as int, j as int);
                    assert(ch[x as int] == ch2[x as int]);
                    lemma_reaches_step(ch, c as int, x as int, j as int);
                    assert(ch[x as int][j as int] == y);
                }
                let v = d[x] + 1;
                let ghost dprev = depth_seq(d@);
                d.set(y, v);
                wl.push(y);
                assert(depth_seq(d@) =~= dprev.update(y as int, dprev[x as int] + 1));
            } else {
                proof {
                    let dv = depth_seq(d@);
                    assert forall|q: int, jj: int|
                        0 <= q < ch2.len() && 0 <= jj < ch2[q].len() && !wl@.contains(q as usize)
                            && (q != x || jj < j + 1) implies dv[#[trigger] ch2[q][jj] as int] >= dv[q] + 1 by {
                        if q == x as int && jj == j as int {
                        }
                    }
                }
            }
            j = j + 1;
        }
        proof {
            let dv = depth_seq(d@);
            lemma_slack_nonneg(dv, b as int);
            assert forall|q: int, jj: int|
                0 <= q < ch2.len() && 0 <= jj < ch2[q].len() && !wl@.contains(q as usize) && (q != -1 || jj < 0)
                    implies dv[#[trigger] ch2[q][jj] as int] >= dv[q] + 1 by {
                if q == x as int {
                    assert(jj < ch2[x as int].len());
                }
            }
        }
    }
    proof {
        let dv = depth_seq(d@);
        assert forall|q: int, jj: int| 0 <= q < ch2.len() && 0 <= jj < ch2[q].len()
            implies dv[#[trigger] ch2[q][jj] as int] >= dv[q] + 1 by {
            assert(!wl@.contains(q as usize));
        }
    }
    true
}

/// Before any depth moves, exact depths of `ch` are below every valid
/// labelling of `ch` with one more edge, and settle every old edge.
proof fn lemma_edge_start(ch: Seq<Seq<usize>>, d0: Seq<int>, p: int, c: int)
    requires
        edges_in_range(ch),
        exact_depths(ch, d0),
        0 <= p < ch.len(),
        0 <= c < ch.len(),
    ensures
        edges_in_range(with_edge(ch, p, c)),
        minimal(with_edge(ch, p, c), d0),
        settled(with_edge(ch, p, c), d0, Seq::<usize>::empty(), p, ch[p].len() as int),
        tight(with_edge(ch, p, c), d0),
{
    let ch2 = with_edge(ch, p, c);
    let lp = ch[p].len() as int;
        assert(edges_in_range(ch2)) by {
            assert forall|q: int, j: int| 0 <= q < ch2.len() && 0 <= j < ch2[q].len()
                implies #[trigger] ch2[q][j] < ch2.len() by {
                if q != p || j < lp {
                    assert(ch2[q][j] == ch[q][j]);
                }
            }
        }
            assert forall|e: Seq<int>| #[trigger] valid_labelling(ch2, e) implies below(d0, e) by {
                assert forall|i: int| 0 <= i < d0.len() implies #[trigger] d0[i] <= e[i] by {
                    lemma_exact_is_least(ch, d0, ch2, e, i);
                }
            }
            assert(settled(ch2, d0, Seq::<usize>::empty(), p, lp)) by {
                assert forall|q: int, j: int|
                    0 <= q < ch2.len() && 0 <= j < ch2[q].len() && !Seq::<usize>::empty().contains(q as usize)
                        && (q != p || j < lp) implies d0[#[trigger] ch2[q][j] as int] >= d0[q] + 1 by {
                    assert(ch2[q][j] == ch[q][j]);
                }
            }
            assert(tight(ch2, d0)) by {
                assert forall|x: int| 0 <= x < d0.len() implies #[trigger] d0[x] == 0 || exists|q: int, j: int|
                    0 <= q < ch2.len() && 0 <= j < ch2[q].len() && ch2[q][j] == x && d0[x] <= d0[q] + 1 by {
                    if d0[x] != 0 {
                        let (q, j) = choose|q: int, j: int|
                            0 <= q < ch.len() && 0 <= j < ch[q].len() && ch[q][j] == x && d0[x] <= d0[q] + 1;
                        assert(ch2[q][j] == ch[q][j]);
                    }
                }
            }
}

} // verus!

verus! {

/// Every node of a well-formed graph lies within `ceil(log2(n))` of the
/// roots, and its stored depth is its longest-path depth.
pub proof fn lemma_depth_bound<T>(g: &DAG<T>, i: int)
    requires
        g.wf(),
        0 <= i < g.len(),
    ensures
        0 <= g.depth_view()[i] <= ceil_log2(g.len()),
        exact_depths(g.children_view(), g.depth_view()),
{
}

/// A well-formed graph has no cycle: no walk of one or more edges returns
/// to the node it started from.
pub proof fn lemma_acyclic<T>(g: &DAG<T>, s: Seq<int>)
    requires
        g.wf(),
        is_path(g.children_view(), s),
        s.len() >= 2,
    ensures
        s.last() != s[0],
{
    lemma_labelled_is_acyclic(g.children_view(), g.depth_view(), s);
}

} // verus!

verus! {

/// Ids strictly ascending in (depth, id) order.
pub open spec fn sorted_by_key(d: Seq<int>, a: Seq<int>) -> bool {
    forall|s: int, t: int| 0 <= s < t < a.len() ==> key_before(d, #[trigger] a[s], #[trigger] a[t])
}

/// Two id sequences in strict (depth, id) order that hold the same ids are
/// the same sequence: a traversal's order is fixed by which nodes it visits.
pub proof fn lemma_sorted_unique(d: Seq<int>, a: Seq<int>, b: Seq<int>)
    requires
        sorted_by_key(d, a),
        sorted_by_key(d, b),
        forall|x: int| a.contains(x) <==> b.contains(x),
    ensures
        a == b,
    decreases a.len(),
{
    if a.len() == 0 {
        if b.len() > 0 {
            assert(b.contains(b[0]));
        }
        assert(a =~= b);
    } else if b.len() == 0 {
        assert(a.contains(a[0]));
    } else {
        assert(a.contains(a[0]));
        let k = choose|k: int| 0 <= k < b.len() && b[k] == a[0];
        assert(b.contains(b[0]));
        let m = choose|m: int| 0 <= m < a.len() && a[m] == b[0];
        if k > 0 {
            assert(key_before(d, b[0], b[k]));
            if m > 0 {
                assert(key_before(d, a[0], a[m]));
            }
        }
        assert(a[0] == b[0]);
        let a2 = a.drop_first();
        let b2 = b.drop_first();
        assert forall|x: int| a2.contains(x) <==> b2.contains(x) by {
            if a2.contains(x) {
                let i = choose|i: int| 0 <= i < a2.len() && a2[i] == x;
                assert(a[i + 1] == x);
                assert(key_before(d, a[0], a[i + 1]));
                assert(a.contains(x));
                let j = choose|j: int| 0 <= j < b.len() && b[j] == x;
                assert(j != 0);
                assert(b2[j - 1] == x);
            }
            if b2.contains(x) {
                let i = choose|i: int| 0 <= i < b2.len() && b2[i] == x;
                assert(b[i + 1] == x);
                assert(key_before(d, b[0], b[i + 1]));
                assert(b.contains(x));
                let j = choose|j: int| 0 <= j < a.len() && a[j] == x;
                assert(j != 0);
                assert(a2[j - 1] == x);
            }
        }
        assert(sorted_by_key(d, a2)) by {
            assert forall|s: int, t: int| 0 <= s < t < a2.len() implies key_before(d, #[trigger] a2[s], #[trigger] a2[t]) by {
                assert(a2[s] == a[s + 1] && a2[t] == a[t + 1]);
            }
        }
        assert(sorted_by_key(d, b2)) by {
            assert forall|s: int, t: int| 0 <= s < t < b2.len() implies key_before(d, #[trigger] b2[s], #[trigger] b2[t]) by {
                assert(b2[s] == b[s + 1] && b2[t] == b[t + 1]);
            }
        }
        lemma_sorted_unique(d, a2, b2);
        assert(a =~= seq![a[0]] + a2);
        assert(b =~= seq![b[0]] + b2);
    }
}

/// The ids of a visit list, in order.
pub open spec fn visit_ids<E>(v: Seq<(NodeId, Result<(), E>)>) -> Seq<int> {
    v.map_values(|e: (NodeId, Result<(), E>)| e.0.index as int)
}

/// Two traversals of the same graph whose visits succeed on the same nodes
/// visit the same nodes in the same order: a visitor that answers alike
/// on every run sees the same sequence of calls on every run.
pub proof fn lemma_traversal_deterministic<E>(
    d: Seq<int>,
    ch: Seq<Seq<usize>>,
    v1: Seq<(NodeId, Result<(), E>)>,
    v2: Seq<(NodeId, Result<(), E>)>,
)
    requires
        traversal_report(d, ch, v1),
        traversal_report(d, ch, v2),
        ch.len() == d.len(),
        forall|i: int| 0 <= i < d.len() ==> (listed_ok(v1, i) <==> listed_ok(v2, i)),
    ensures
        visit_ids(v1) == visit_ids(v2),
{
    let a = visit_ids(v1);
    let b = visit_ids(v2);
    assert forall|x: int| 0 <= x < d.len() implies parents_ok(ch, v1, x) == parents_ok(ch, v2, x) by {
        assert forall|p: int, j: int| 0 <= p < ch.len() && 0 <= j < ch[p].len() && #[trigger] ch[p][j] as int == x
            implies (listed_ok(v1, p) <==> listed_ok(v2, p)) by {
        }
    }
    assert forall|x: int| a.contains(x) <==> b.contains(x) by {
        if a.contains(x) {
            let t = choose|t: int| 0 <= t < a.len() && a[t] == x;
            assert(v1[t].0.index == x);
            assert(v1[t].0.index < d.len());
            assert(listed(v1, x));
            assert(parents_ok(ch, v1, x) == parents_ok(ch, v2, x));
            assert(parents_ok(ch, v2, x));
            assert(listed(v2, x));
            let u = choose|u: int| 0 <= u < v2.len() && (#[trigger] v2[u]).0.index == x;
            assert(b[u] == x);
        }
        if b.contains(x) {
            let t = choose|t: int| 0 <= t < b.len() && b[t] == x;
            assert(v2[t].0.index == x);
            assert(v2[t].0.index < d.len());
            assert(listed(v2, x));
            assert(parents_ok(ch, v1, x) == parents_ok(ch, v2, x));
            assert(parents_ok(ch, v1, x));
            assert(listed(v1, x));
            let u = choose|u: int| 0 <= u < v1.len() && (#[trigger] v1[u]).0.index == x;
            assert(a[u] == x);
        }
    }
    assert(sorted_by_key(d, a)) by {
        assert forall|s: int, t: int| 0 <= s < t < a.len() implies key_before(d, #[trigger] a[s], #[trigger] a[t]) by {
            assert(key_before(d, v1[s].0.index as int, v1[t].0.index as int));
        }
    }
    assert(sorted_by_key(d, b)) by {
        assert forall|s: int, t: int| 0 <= s < t < b.len() implies key_before(d, #[trigger] b[s], #[trigger] b[t]) by {
            assert(key_before(d, v2[s].0.index as int, v2[t].0.index as int));
        }
    }
    lemma_sorted_unique(d, a, b);
}

/// In a traversal, a failed visit skips exactly the nodes below it: a node
/// is visited exactly when every node above it was visited with success.
pub proof fn lemma_failure_skips_descendants_only<E>(
    d: Seq<int>,
    ch: Seq<Seq<usize>>,
    v: Seq<(NodeId, Result<(), E>)>,
    i: int,
)
    requires
        traversal_report(d, ch, v),
        exact_depths(ch, d),
        edges_in_range(ch),
        0 <= i < d.len(),
    ensures
        listed(v, i) <==> (forall|a: int| 0 <= a < d.len() && a != i && #[trigger] reaches(ch, a, i) ==> listed_ok(v, a)),
    decreases d[i],
{
    if forall|a: int| 0 <= a < d.len() && a != i && #[trigger] reaches(ch, a, i) ==> listed_ok(v, a) {
        assert forall|p: int, j: int| 0 <= p < ch.len() && 0 <= j < ch[p].len() && #[trigger] ch[p][j] as int == i
            implies listed_ok(v, p) by {
            let s = seq![p, i];
            assert(has_edge(ch, p, i));
            assert(is_path(ch, s));
            assert(s[0] == p && s.last() == i);
            assert(reaches(ch, p, i));
            assert(d[ch[p][j] as int] >= d[p] + 1);
        }
        assert(parents_ok(ch, v, i));
    }
    if listed(v, i) {
        assert(parents_ok(ch, v, i));
        assert forall|a: int| 0 <= a < d.len() && a != i && #[trigger] reaches(ch, a, i) implies listed_ok(v, a) by {
            let s = choose|s: Seq<int>| is_path(ch, s) && s[0] == a && s.last() == i;
            let k = s.len() - 2;
            assert(has_edge(ch, s[k], s[k + 1]));
            let j = choose|j: int| 0 <= j < ch[s[k]].len() && ch[s[k]][j] as int == s[k + 1];
            let q = s[k];
            assert(d[ch[q][j] as int] >= d[q] + 1);
            assert(listed_ok(v, q));
            if q != a {
                assert(listed(v, q));
                lemma_failure_skips_descendants_only(d, ch, v, q);
                let s2 = s.subrange(0, k + 1);
                assert(is_path(ch, s2)) by {
                    assert forall|m: int| 0 <= m < s2.len() - 1 implies has_edge(ch, s2[m], #[trigger] s2[m + 1]) by {
                        assert(s2[m] == s[m] && s2[m + 1] == s[m + 1]);
                    }
                }
                assert(s2[0] == a && s2.last() == q);
                assert(reaches(ch, a, q));
            }
        }
    }
}

} // verus!
