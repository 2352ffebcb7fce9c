//! The mathematical model of a graph: child lists indexed by node, depth
//! labellings, paths and reachability.

use vstd::prelude::*;

verus! {

/// Every child index names a node.
pub open spec fn edges_in_range(ch: Seq<Seq<usize>>) -> bool {
    forall|p: int, j: int|
        0 <= p < ch.len() && 0 <= j < ch[p].len() ==> #[trigger] ch[p][j] < ch.len()
}

/// `ch` with the edge `p -> c` appended to `p`'s child list.
pub open spec fn with_edge(ch: Seq<Seq<usize>>, p: int, c: int) -> Seq<Seq<usize>> {
    ch.update(p, ch[p].push(c as usize))
}

/// `e` gives each node a depth, and every edge goes at least one level down.
pub open spec fn valid_labelling(ch: Seq<Seq<usize>>, e: Seq<int>) -> bool {
    &&& e.len() == ch.len()
    &&& forall|i: int| 0 <= i < e.len() ==> #[trigger] e[i] >= 0
    &&& forall|p: int, j: int|
        0 <= p < ch.len() && 0 <= j < ch[p].len() ==> e[#[trigger] ch[p][j] as int] >= e[p] + 1
}

/// Every node of non-zero depth has a parent exactly one level above it
/// (or, for a labelling under construction, at least one level above).
pub open spec fn tight(ch: Seq<Seq<usize>>, e: Seq<int>) -> bool {
    forall|c: int|
        0 <= c < e.len() ==> #[trigger] e[c] == 0 || exists|p: int, j: int|
            0 <= p < ch.len() && 0 <= j < ch[p].len() && ch[p][j] == c && e[c] <= e[p] + 1
}

/// `e` is the longest-path depth of every node: 0 for a root, and otherwise
/// one more than the deepest parent.
pub open spec fn exact_depths(ch: Seq<Seq<usize>>, e: Seq<int>) -> bool {
    valid_labelling(ch, e) && tight(ch, e)
}

/// Every depth is at most `b`.
pub open spec fn bounded(e: Seq<int>, b: int) -> bool {
    forall|i: int| 0 <= i < e.len() ==> #[trigger] e[i] <= b
}

/// Some valid labelling of `ch` stays within `b`.
pub open spec fn boundable(ch: Seq<Seq<usize>>, b: int) -> bool {
    exists|e: Seq<int>| valid_labelling(ch, e) && bounded(e, b)
}

/// `c` is among `p`'s children.
pub open spec fn has_edge(ch: Seq<Seq<usize>>, p: int, c: int) -> bool {
    exists|j: int| 0 <= j < ch[p].len() && ch[p][j] as int == c
}

/// `s` is a walk along edges (a single node is a walk of no edges).
pub open spec fn is_path(ch: Seq<Seq<usize>>, s: Seq<int>) -> bool {
    &&& s.len() >= 1
    &&& forall|k: int| 0 <= k < s.len() ==> 0 <= #[trigger] s[k] < ch.len()
    &&& forall|k: int| 0 <= k < s.len() - 1 ==> has_edge(ch, s[k], #[trigger] s[k + 1])
}

/// `b` can be reached from `a` by following edges (every node reaches itself).
pub open spec fn reaches(ch: Seq<Seq<usize>>, a: int, b: int) -> bool {
    exists|s: Seq<int>| is_path(ch, s) && s[0] == a && s.last() == b
}

/// A walk can be extended by one edge.
pub proof fn lemma_reaches_step(ch: Seq<Seq<usize>>, a: int, b: int, j: int)
    requires
        reaches(ch, a, b),
        0 <= b < ch.len(),
        0 <= j < ch[b].len(),
        edges_in_range(ch),
    ensures
        reaches(ch, a, ch[b][j] as int),
{
    let s = choose|s: Seq<int>| is_path(ch, s) && s[0] == a && s.last() == b;
    let c = ch[b][j];
    let t = s.push(c as int);
    assert(has_edge(ch, b, c as int));
    assert forall|k: int| 0 <= k < t.len() - 1 implies has_edge(ch, t[k], #[trigger] t[k + 1]) by {
        if k < s.len() - 1 {
            assert(t[k + 1] == s[k + 1]);
        }
    }
    assert(is_path(ch, t));
    assert(t[0] == a && t.last() == c as int);
}

/// A node reaches itself.
pub proof fn lemma_reaches_self(ch: Seq<Seq<usize>>, a: int)
    requires
        0 <= a < ch.len(),
    ensures
        reaches(ch, a, a),
{
    let s = seq![a];
    assert(is_path(ch, s));
    assert(s[0] == a && s.last() == a);
}

/// A set of nodes closed under edges holds the end of every walk that starts in it.
pub proof fn lemma_closed_holds_path(ch: Seq<Seq<usize>>, vis: Seq<bool>, s: Seq<int>)
    requires
        is_path(ch, s),
        vis.len() == ch.len(),
        vis[s[0]],
        forall|i: int, j: int|
            0 <= i < ch.len() && 0 <= j < ch[i].len() && vis[i] ==> vis[#[trigger] ch[i][j] as int],
    ensures
        vis[s.last()],
    decreases s.len(),
{
    if s.len() > 1 {
        let t = s.drop_last();
        assert(is_path(ch, t)) by {
            assert forall|k: int| 0 <= k < t.len() - 1 implies has_edge(ch, t[k], #[trigger] t[k + 1]) by {
                assert(s[k + 1] == t[k + 1]);
            }
        }
        lemma_closed_holds_path(ch, vis, t);
        let k = s.len() - 2;
        assert(has_edge(ch, s[k], s[k + 1]));
        let j = choose|j: int| 0 <= j < ch[s[k]].len() && ch[s[k]][j] as int == s[k + 1];
        assert(vis[ch[s[k]][j] as int]);
    }
}

/// Depths grow strictly along a walk with at least one edge.
pub proof fn lemma_path_descends(ch: Seq<Seq<usize>>, e: Seq<int>, s: Seq<int>)
    requires
        valid_labelling(ch, e),
        is_path(ch, s),
    ensures
        e[s.last()] >= e[s[0]] + (s.len() - 1),
    decreases s.len(),
{
    if s.len() > 1 {
        let t = s.drop_last();
        assert(is_path(ch, t)) by {
            assert forall|k: int| 0 <= k < t.len() - 1 implies has_edge(ch, t[k], #[trigger] t[k + 1]) by {
                assert(s[k + 1] == t[k + 1]);
            }
        }
        lemma_path_descends(ch, e, t);
        let k = s.len() - 2;
        assert(has_edge(ch, s[k], s[k + 1]));
        let j = choose|j: int| 0 <= j < ch[s[k]].len() && ch[s[k]][j] as int == s[k + 1];
        assert(e[ch[s[k]][j] as int] >= e[s[k]] + 1);
    }
}

/// A graph with a valid labelling has no cycle: no walk of one or more
/// edges returns to where it started.
pub proof fn lemma_labelled_is_acyclic(ch: Seq<Seq<usize>>, e: Seq<int>, s: Seq<int>)
    requires
        valid_labelling(ch, e),
        is_path(ch, s),
        s.len() >= 2,
    ensures
        s.last() != s[0],
{
    lemma_path_descends(ch, e, s);
}

/// Exact depths are the least valid labelling, also of any graph that keeps
/// every edge (at the same place in each child list) and may add more.
pub proof fn lemma_exact_is_least(ch: Seq<Seq<usize>>, d: Seq<int>, ch2: Seq<Seq<usize>>, e: Seq<int>, i: int)
    requires
        exact_depths(ch, d),
        ch2.len() == ch.len(),
        forall|p: int| 0 <= p < ch.len() ==> #[trigger] ch2[p].len() >= ch[p].len(),
        forall|p: int, j: int| 0 <= p < ch.len() && 0 <= j < ch[p].len() ==> #[trigger] ch2[p][j] == ch[p][j],
        valid_labelling(ch2, e),
        0 <= i < d.len(),
    ensures
        d[i] <= e[i],
    decreases d[i],
{
    if d[i] != 0 {
        let (p, j) = choose|p: int, j: int|
            0 <= p < ch.len() && 0 <= j < ch[p].len() && ch[p][j] == i && d[i] <= d[p] + 1;
        assert(d[ch[p][j] as int] >= d[p] + 1);
        assert(ch2[p][j] == ch[p][j]);
        lemma_exact_is_least(ch, d, ch2, e, p);
        assert(e[ch2[p][j] as int] >= e[p] + 1);
    }
}

} // verus!

verus! {

/// How many entries of `s` are false.
pub open spec fn count_false(s: Seq<bool>) -> nat
    decreases s.len(),
{
    if s.len() == 0 {
        0
    } else {
        count_false(s.drop_last()) + if s.last() { 0nat } else { 1nat }
    }
}

/// Setting a false entry to true lowers the count by one.
pub proof fn lemma_count_false_set(s: Seq<bool>, i: int)
    requires
        0 <= i < s.len(),
        !s[i],
    ensures
        count_false(s.update(i, true)) + 1 == count_false(s),
    decreases s.len(),
{
    let t = s.update(i, true);
    if i < s.len() - 1 {
        assert(t.drop_last() =~= s.drop_last().update(i, true));
        lemma_count_false_set(s.drop_last(), i);
    } else {
        assert(t.drop_last() =~= s.drop_last());
    }
}

/// The sum over nodes of the room left under `b`.
pub open spec fn slack(d: Seq<int>, b: int) -> int
    decreases d.len(),
{
    if d.len() == 0 {
        0
    } else {
        slack(d.drop_last(), b) + (b - d.last())
    }
}

/// Raising one depth lowers the slack by the amount raised.
pub proof fn lemma_slack_set(d: Seq<int>, b: int, i: int, v: int)
    requires
        0 <= i < d.len(),
    ensures
        slack(d.update(i, v), b) == slack(d, b) - (v - d[i]),
    decreases d.len(),
{
    let t = d.update(i, v);
    if i < d.len() - 1 {
        assert(t.drop_last() =~= d.drop_last().update(i, v));
        lemma_slack_set(d.drop_last(), b, i, v);
    } else {
        assert(t.drop_last() =~= d.drop_last());
    }
}

/// The slack is never negative while every depth is within `b`.
pub proof fn lemma_slack_nonneg(d: Seq<int>, b: int)
    requires
        bounded(d, b),
    ensures
        slack(d, b) >= 0,
    decreases d.len(),
{
    if d.len() > 0 {
        assert(bounded(d.drop_last(), b)) by {
            assert forall|i: int| 0 <= i < d.drop_last().len() implies #[trigger] d.drop_last()[i] <= b by {
                assert(d.drop_last()[i] == d[i]);
            }
        }
        lemma_slack_nonneg(d.drop_last(), b);
        assert(d[d.len() - 1] <= b);
    }
}

} // verus!

verus! {

/// What a sequence holds after a push.
pub proof fn lemma_push_contains(s: Seq<usize>, v: usize, i: usize)
    ensures
        s.push(v).contains(i) == (s.contains(i) || v == i),
{
    let t = s.push(v);
    if t.contains(i) {
        let k = choose|k: int| 0 <= k < t.len() && t[k] == i;
        if k < s.len() {
            assert(s[k] == i);
        }
    }
    if s.contains(i) {
        let k = choose|k: int| 0 <= k < s.len() && s[k] == i;
        assert(t[k] == i);
    }
    if v == i {
        assert(t[s.len() as int] == i);
    }
}

} // verus!

verus! {

/// `d` is nowhere above `e`.
pub open spec fn below(d: Seq<int>, e: Seq<int>) -> bool {
    forall|i: int| 0 <= i < d.len() ==> #[trigger] d[i] <= e[i]
}

/// `d` is below every valid labelling of `ch`.
pub open spec fn minimal(ch: Seq<Seq<usize>>, d: Seq<int>) -> bool {
    forall|e: Seq<int>| #[trigger] valid_labelling(ch, e) ==> below(d, e)
}

/// Every edge goes at least one level down, except the edges that leave a
/// node of `wl`, and those of `x` from index `jx` on.
pub open spec fn settled(ch: Seq<Seq<usize>>, d: Seq<int>, wl: Seq<usize>, x: int, jx: int) -> bool {
    forall|p: int, j: int|
        0 <= p < ch.len() && 0 <= j < ch[p].len() && !wl.contains(p as usize) && (p != x || j < jx)
            ==> d[#[trigger] ch[p][j] as int] >= d[p] + 1
}

/// Lifting the `j`-th child of `x` to one level below `x` keeps the
/// labelling tight, minimal and bounded, settles that edge, and uses up slack.
pub proof fn lemma_raise(ch: Seq<Seq<usize>>, d: Seq<int>, wl: Seq<usize>, b: int, x: int, j: int)
    requires
        edges_in_range(ch),
        d.len() == ch.len(),
        0 <= x < ch.len(),
        0 <= j < ch[x].len(),
        ch[x][j] != x,
        d[ch[x][j] as int] <= d[x],
        d[x] + 1 <= b,
        forall|i: int| 0 <= i < d.len() ==> #[trigger] d[i] >= 0,
        settled(ch, d, wl, x, j),
        tight(ch, d),
        minimal(ch, d),
        bounded(d, b),
    ensures
        ({
            let y = ch[x][j] as int;
            let d2 = d.update(y, d[x] + 1);
            &&& settled(ch, d2, wl.push(y as usize), x, j + 1)
            &&& tight(ch, d2)
            &&& minimal(ch, d2)
            &&& bounded(d2, b)
            &&& slack(d2, b) < slack(d, b)
        }),
{
    let y = ch[x][j] as int;
    let d2 = d.update(y, d[x] + 1);
    let wl2 = wl.push(y as usize);
    lemma_slack_set(d, b, y, d[x] + 1);
    assert forall|p: int, jj: int|
        0 <= p < ch.len() && 0 <= jj < ch[p].len() && !wl2.contains(p as usize) && (p != x || jj < j + 1)
            implies d2[#[trigger] ch[p][jj] as int] >= d2[p] + 1 by {
        lemma_push_contains(wl, y as usize, p as usize);
        if !(p == x && jj == j) {
            assert(d[ch[p][jj] as int] >= d[p] + 1);
        }
    }
    assert forall|c: int| 0 <= c < d2.len() implies #[trigger] d2[c] == 0 || exists|p: int, jj: int|
        0 <= p < ch.len() && 0 <= jj < ch[p].len() && ch[p][jj] == c && d2[c] <= d2[p] + 1 by {
        if c == y {
            assert(ch[x][j] == c && d2[c] <= d2[x] + 1);
        } else if d[c] != 0 {
            let (p, jj) = choose|p: int, jj: int|
                0 <= p < ch.len() && 0 <= jj < ch[p].len() && ch[p][jj] == c && d[c] <= d[p] + 1;
            assert(ch[p][jj] == c && d2[c] <= d2[p] + 1);
        }
    }
    assert forall|e: Seq<int>| #[trigger] valid_labelling(ch, e) implies below(d2, e) by {
        assert(below(d, e));
        assert(e[ch[x][j] as int] >= e[x] + 1);
        assert forall|i: int| 0 <= i < d2.len() implies #[trigger] d2[i] <= e[i] by {
            assert(d[i] <= e[i]);
        }
    }
    assert forall|i: int| 0 <= i < d2.len() implies #[trigger] d2[i] <= b by {
        assert(d[i] <= b);
    }
}

/// If a child must be lifted to one level below a node already at the
/// bound, no valid labelling stays within the bound.
pub proof fn lemma_cannot_raise(ch: Seq<Seq<usize>>, d: Seq<int>, b: int, x: int, j: int)
    requires
        edges_in_range(ch),
        d.len() == ch.len(),
        0 <= x < ch.len(),
        0 <= j < ch[x].len(),
        d[x] >= b,
        minimal(ch, d),
    ensures
        !boundable(ch, b),
{
    assert forall|e: Seq<int>| !(valid_labelling(ch, e) && bounded(e, b)) by {
        if valid_labelling(ch, e) && bounded(e, b) {
            assert(below(d, e));
            assert(d[x] <= e[x]);
            assert(e[ch[x][j] as int] >= e[x] + 1);
            assert(e[ch[x][j] as int] <= b);
        }
    }
}

} // verus!
