//! The control-flow graph: an arena of nodes (basic blocks or unresolved
//! jump targets) and guarded directed edges, plus a depth-first post-order
//! traversal used to lay out the IL stream.
//!
//! Edges are kept unique per `(source, target)` pair: a second insertion
//! updates the guard in place. Traversal explores edges in insertion order,
//! so the IL layout is deterministic.

use vstd::prelude::*;

use crate::index::BasicBlockIndex;
use crate::value::Constant;
use crate::value::Guard;
use crate::value::Value;
use crate::value::ValueV;
use crate::value::Variable;

verus! {

/// Stable reference to a node in the [`ControlFlowGraph`].
#[derive(Clone, Copy, Debug, PartialEq, Eq, Structural)]
pub struct ControlFlowRef {
    pub index: usize,
}

/// Stable reference to an edge in the [`ControlFlowGraph`].
#[derive(Clone, Copy, Debug, PartialEq, Eq, Structural)]
pub struct ControlFlowEdge {
    pub index: usize,
}

/// A node of the control-flow graph: either a basic block of the owning
/// function, or a jump target that could not be reduced to a block.
#[derive(Debug)]
pub enum CfgNode {
    BasicBlock(BasicBlockIndex),
    Value(Value),
}

/// Mathematical image of a [`CfgNode`].
pub ghost enum CfgNodeV {
    BasicBlock(usize),
    Value(ValueV),
}

impl View for CfgNode {
    type V = CfgNodeV;

    open spec fn view(&self) -> CfgNodeV {
        match self {
            CfgNode::BasicBlock(i) => CfgNodeV::BasicBlock(i.index),
            CfgNode::Value(v) => CfgNodeV::Value(v@),
        }
    }
}

impl DeepView for CfgNode {
    type V = CfgNodeV;

    open spec fn deep_view(&self) -> CfgNodeV {
        self@
    }
}

impl Clone for CfgNode {
    fn clone(&self) -> (r: Self)
        ensures
            r@ == self@,
    {
        match self {
            CfgNode::BasicBlock(i) => CfgNode::BasicBlock(*i),
            CfgNode::Value(v) => CfgNode::Value(v.clone()),
        }
    }
}

impl CfgNode {
    /// Whether this node is an unresolved target carrying exactly `var`.
    fn is_unresolved_var(&self, var: &Variable) -> (r: bool)
        ensures
            r <==> self@ == CfgNodeV::Value(ValueV::Variable(var@)),
    {
        match self {
            CfgNode::Value(v) => match v {
                Value::Variable(w) => w == var,
                _ => false,
            },
            _ => false,
        }
    }
}

/// A directed edge between two node positions, carrying a guard.
#[derive(Clone, Copy, Debug)]
pub struct CfgEdge {
    pub source: usize,
    pub target: usize,
    pub guard: Guard,
}

/// True when `e` runs from node position `s` to node position `t`.
pub open spec fn edge_matches(e: CfgEdge, s: usize, t: usize) -> bool {
    e.source == s && e.target == t
}

/// How an edge upsert changes the edge list: if an edge from `s` to `t`
/// already exists, the first such edge gets the new guard; otherwise the
/// edge is appended.
pub open spec fn edge_upsert(
    old_es: Seq<CfgEdge>,
    new_es: Seq<CfgEdge>,
    s: usize,
    t: usize,
    g: Guard,
) -> bool {
    let e = CfgEdge { source: s, target: t, guard: g };
    if exists|j: int| 0 <= j < old_es.len() && edge_matches(#[trigger] old_es[j], s, t) {
        exists|j: int|
            {
                &&& 0 <= j < old_es.len()
                &&& edge_matches(#[trigger] old_es[j], s, t)
                &&& forall|k: int| 0 <= k < j ==> !edge_matches(#[trigger] old_es[k], s, t)
                &&& new_es == old_es.update(j, e)
            }
    } else {
        new_es == old_es.push(e)
    }
}

/// Graph of basic blocks and guarded jumps.
#[derive(Debug)]
pub struct ControlFlowGraph {
    pub nodes: Vec<CfgNode>,
    pub edges: Vec<CfgEdge>,
}

/// The variables carried by unresolved-target nodes, in node order.
pub open spec fn unresolved_vars(nodes: Seq<CfgNodeV>) -> Seq<crate::value::VariableV>
    decreases nodes.len(),
{
    if nodes.len() == 0 {
        Seq::empty()
    } else {
        let rest = unresolved_vars(nodes.drop_last());
        match nodes.last() {
            CfgNodeV::Value(ValueV::Variable(v)) => rest.push(v),
            _ => rest,
        }
    }
}

impl ControlFlowGraph {
    /// Sequence of node images.
    pub open spec fn nodes_v(&self) -> Seq<CfgNodeV> {
        self.nodes.deep_view()
    }

    /// Every edge endpoint names an existing node.
    pub open spec fn edges_closed(&self) -> bool {
        forall|j: int|
            0 <= j < self.edges@.len() ==> (#[trigger] self.edges@[j]).source < self.nodes@.len()
                && self.edges@[j].target < self.nodes@.len()
    }

    /// An empty graph.
    pub fn new() -> (g: ControlFlowGraph)
        ensures
            g.nodes@.len() == 0,
            g.edges@.len() == 0,
    {
        ControlFlowGraph { nodes: Vec::new(), edges: Vec::new() }
    }

    /// Number of nodes.
    pub fn node_count(&self) -> (r: usize)
        ensures
            r == self.nodes@.len(),
    {
        self.nodes.len()
    }

    /// Number of edges.
    pub fn edge_count(&self) -> (r: usize)
        ensures
            r == self.edges@.len(),
    {
        self.edges.len()
    }

    /// Appends a node and returns its reference.
    pub fn add_node(&mut self, weight: CfgNode) -> (r: ControlFlowRef)
        ensures
            final(self).nodes_v() == old(self).nodes_v().push(weight@),
            final(self).nodes@.len() == old(self).nodes@.len() + 1,
            final(self).edges@ == old(self).edges@,
            r.index == old(self).nodes@.len(),
    {
        let r = ControlFlowRef { index: self.nodes.len() };
        self.nodes.push(weight);
        proof {
            assert(self.nodes_v() =~= old(self).nodes_v().push(weight@));
        }
        r
    }

    /// The weight of node `n`, if `n` names an existing node.
    pub fn node_weight(&self, n: ControlFlowRef) -> (r: Option<&CfgNode>)
        ensures
            n.index < self.nodes@.len() ==> (r matches Some(w) && w@ == self.nodes_v()[n.index as int]),
            n.index >= self.nodes@.len() ==> r is None,
    {
        if n.index < self.nodes.len() {
            Some(&self.nodes[n.index])
        } else {
            None
        }
    }

    /// References to all nodes, in position order.
    pub fn node_indices(&self) -> (r: Vec<ControlFlowRef>)
        ensures
            r@.len() == self.nodes@.len(),
            forall|i: int| 0 <= i < r@.len() ==> (#[trigger] r@[i]).index == i,
    {
        let mut r: Vec<ControlFlowRef> = Vec::new();
        let mut i: usize = 0;
        while i < self.nodes.len()
            invariant
                i <= self.nodes@.len(),
                r@.len() == i,
                forall|k: int| 0 <= k < i ==> (#[trigger] r@[k]).index == k,
            decreases self.nodes@.len() - i,
        {
            r.push(ControlFlowRef { index: i });
            i = i + 1;
        }
        r
    }

    /// A copy of the edge list, in insertion order.
    pub fn edge_list(&self) -> (r: Vec<CfgEdge>)
        ensures
            r@ == self.edges@,
    {
        let mut r: Vec<CfgEdge> = Vec::new();
        let mut i: usize = 0;
        while i < self.edges.len()
            invariant
                i <= self.edges@.len(),
                r@ == self.edges@.take(i as int),
            decreases self.edges@.len() - i,
        {
            let e = self.edges[i];
            r.push(e);
            proof {
                assert(r@ =~= self.edges@.take(i + 1 as int));
            }
            i = i + 1;
        }
        proof {
            assert(r@ =~= self.edges@);
        }
        r
    }

    /// The edge from `a` to `b`, if one exists.
    pub fn find_edge(&self, a: ControlFlowRef, b: ControlFlowRef) -> (r: Option<ControlFlowEdge>)
        ensures
            (r is Some) <==> exists|j: int|
                0 <= j < self.edges@.len() && edge_matches(#[trigger] self.edges@[j], a.index, b.index),
            r matches Some(e) ==> e.index < self.edges@.len() && edge_matches(
                self.edges@[e.index as int],
                a.index,
                b.index,
            ),
    {
        let mut j: usize = 0;
        while j < self.edges.len()
            invariant
                j <= self.edges@.len(),
                forall|k: int|
                    0 <= k < j ==> !edge_matches(#[trigger] self.edges@[k], a.index, b.index),
            decreases self.edges@.len() - j,
        {
            let e = self.edges[j];
            if e.source == a.index && e.target == b.index {
                return Some(ControlFlowEdge { index: j });
            }
            j = j + 1;
        }
        None
    }

    /// Inserts an edge from `a` to `b` with guard `guard`; if such an edge
    /// already exists, only its guard is replaced.
    pub fn update_edge(&mut self, a: ControlFlowRef, b: ControlFlowRef, guard: Guard)
        ensures
            final(self).nodes == old(self).nodes,
            edge_upsert(old(self).edges@, final(self).edges@, a.index, b.index, guard),
    {
        let e = CfgEdge { source: a.index, target: b.index, guard };
        let mut j: usize = 0;
        while j < self.edges.len()
            invariant
                j <= self.edges@.len(),
                self.edges@ == old(self).edges@,
                self.nodes == old(self).nodes,
                forall|k: int|
                    0 <= k < j ==> !edge_matches(#[trigger] self.edges@[k], a.index, b.index),
            decreases self.edges@.len() - j,
        {
            let cur = self.edges[j];
            if cur.source == a.index && cur.target == b.index {
                let ghost jw = j as int;
                self.edges.set(j, e);
                proof {
                    assert(0 <= jw < old(self).edges@.len() && edge_matches(
                        old(self).edges@[jw],
                        a.index,
                        b.index,
                    ));
                    assert(forall|k: int|
                        0 <= k < jw ==> !edge_matches(
                            #[trigger] old(self).edges@[k],
                            a.index,
                            b.index,
                        ));
                    assert(self.edges@ == old(self).edges@.update(jw, e));
                    assert(edge_upsert(old(self).edges@, self.edges@, a.index, b.index, guard));
                }
                return ;
            }
            j = j + 1;
        }
        self.edges.push(e);
    }

    /// Replaces the first unresolved-target node whose payload is the
    /// variable `var` by the constant `val`. Returns whether one was found.
    pub fn resolve_value(&mut self, var: &Variable, val: Constant) -> (found: bool)
        ensures
            final(self).edges@ == old(self).edges@,
            final(self).nodes@.len() == old(self).nodes@.len(),
            ({
                let nv = old(self).nodes_v();
                let target = CfgNodeV::Value(ValueV::Variable(var@));
                if exists|i: int| 0 <= i < nv.len() && nv[i] == target {
                    found && exists|i: int|
                        0 <= i < nv.len() && nv[i] == target && (forall|k: int|
                            0 <= k < i ==> nv[k] != target) && final(self).nodes_v() == nv.update(
                            i,
                            CfgNodeV::Value(ValueV::Constant(val)),
                        )
                } else {
                    !found && final(self).nodes == old(self).nodes
                }
            }),
    {
        let ghost target = CfgNodeV::Value(ValueV::Variable(var@));
        let mut i: usize = 0;
        while i < self.nodes.len()
            invariant
                i <= self.nodes@.len(),
                self.nodes == old(self).nodes,
                self.edges@ == old(self).edges@,
                forall|k: int| 0 <= k < i ==> self.nodes_v()[k] != target,
            decreases self.nodes@.len() - i,
        {
            let is_match = self.nodes[i].is_unresolved_var(var);
            proof {
                assert(self.nodes_v()[i as int] == self.nodes@[i as int]@);
                assert(is_match <==> self.nodes_v()[i as int] == target);
            }
            if is_match {
                let ghost nv = old(self).nodes_v();
                let ghost witness = i as int;
                self.nodes.set(i, CfgNode::Value(Value::Constant(val)));
                proof {
                    assert(self.nodes_v() =~= nv.update(
                        witness,
                        CfgNodeV::Value(ValueV::Constant(val)),
                    ));
                    assert(nv[witness] == target && (forall|k: int|
                        0 <= k < witness ==> nv[k] != target));
                }
                return true;
            }
            i = i + 1;
        }
        proof {
            let nv = old(self).nodes_v();
            assert forall|k: int| 0 <= k < nv.len() implies nv[k] != target by {
                assert(nv[k] == self.nodes_v()[k]);
            }
        }
        false
    }

    /// The variables of all unresolved-target nodes, in node order.
    pub fn unresolved_variables(&self) -> (r: Vec<Variable>)
        ensures
            r.deep_view() == unresolved_vars(self.nodes_v()),
    {
        let mut r: Vec<Variable> = Vec::new();
        let mut i: usize = 0;
        while i < self.nodes.len()
            invariant
                i <= self.nodes@.len(),
                r.deep_view() == unresolved_vars(self.nodes_v().take(i as int)),
            decreases self.nodes@.len() - i,
        {
            proof {
                assert(self.nodes_v().take(i + 1 as int).drop_last() =~= self.nodes_v().take(
                    i as int,
                ));
                assert(self.nodes_v().take(i + 1 as int).last() == self.nodes_v()[i as int]);
            }
            match &self.nodes[i] {
                CfgNode::Value(Value::Variable(v)) => {
                    r.push(v.clone());
                    proof {
                        assert(r.deep_view() =~= unresolved_vars(
                            self.nodes_v().take(i + 1 as int),
                        ));
                    }
                },
                _ => {
                    proof {
                        assert(r.deep_view() =~= unresolved_vars(
                            self.nodes_v().take(i + 1 as int),
                        ));
                    }
                },
            }
            i = i + 1;
        }
        proof {
            assert(self.nodes_v().take(self.nodes@.len() as int) =~= self.nodes_v());
        }
        r
    }
}

/// How many entries of `s` are true.
pub open spec fn count_true(s: Seq<bool>) -> int
    decreases s.len(),
{
    if s.len() == 0 {
        0
    } else {
        count_true(s.drop_last()) + if s.last() {
            1 as int
        } else {
            0 as int
        }
    }
}

proof fn lemma_count_true_bounds(s: Seq<bool>)
    ensures
        0 <= count_true(s) <= s.len(),
    decreases s.len(),
{
    if s.len() > 0 {
        lemma_count_true_bounds(s.drop_last());
    }
}

proof fn lemma_count_true_update(s: Seq<bool>, i: int)
    requires
        0 <= i < s.len(),
        !s[i],
    ensures
        count_true(s.update(i, true)) == count_true(s) + 1,
    decreases s.len(),
{
    let t = s.update(i, true);
    if i == s.len() - 1 {
        assert(t.drop_last() =~= s.drop_last());
    } else {
        assert(t.drop_last() =~= s.drop_last().update(i, true));
        lemma_count_true_update(s.drop_last(), i);
        assert(t.last() == s.last());
    }
}

/// `to` is reachable from `from` along the edge list in at most `k` hops.
pub open spec fn reaches(es: Seq<CfgEdge>, from: usize, to: usize, k: nat) -> bool
    decreases k,
{
    to == from || (k > 0 && exists|j: int|
        0 <= j < es.len() && (#[trigger] es[j]).target == to && reaches(
            es,
            from,
            es[j].source,
            (k - 1) as nat,
        ))
}

/// `to` is reachable from `from` along the edge list.
pub open spec fn reachable(es: Seq<CfgEdge>, from: usize, to: usize) -> bool {
    exists|k: nat| reaches(es, from, to, k)
}

/// Reachability extends across one edge.
pub proof fn lemma_reaches_step(es: Seq<CfgEdge>, from: usize, j: int)
    requires
        0 <= j < es.len(),
        reachable(es, from, es[j].source),
    ensures
        reachable(es, from, es[j].target),
{
    let k = choose|k: nat| reaches(es, from, es[j].source, k);
    assert(reaches(es, from, es[j].target, k + 1));
}

/// A set that contains `start` and is closed under edge successors
/// contains every node reachable from `start`.
proof fn lemma_reach_in_closed(es: Seq<CfgEdge>, start: usize, to: usize, k: nat, vis: Seq<bool>)
    requires
        start < vis.len(),
        to < vis.len(),
        vis[start as int],
        forall|j: int|
            0 <= j < es.len() ==> (#[trigger] es[j]).source < vis.len() && es[j].target
                < vis.len(),
        forall|j: int|
            0 <= j < es.len() && vis[(#[trigger] es[j]).source as int] ==> vis[es[j].target as int],
        reaches(es, start, to, k),
    ensures
        vis[to as int],
    decreases k,
{
    if to != start {
        let j = choose|j: int|
            0 <= j < es.len() && (#[trigger] es[j]).target == to && reaches(
                es,
                start,
                es[j].source,
                (k - 1) as nat,
            );
        lemma_reach_in_closed(es, start, es[j].source, (k - 1) as nat, vis);
    }
}

impl ControlFlowGraph {
    /// Depth-first post-order from `start`: every node the walk finishes,
    /// in finishing order, exploring edges in insertion order. The result
    /// holds no duplicates and is exactly the set of nodes reachable from
    /// `start` along the edges.
    #[verifier::rlimit(100)]
    pub fn post_order(&self, start: ControlFlowRef) -> (r: Vec<usize>)
        requires
            start.index < self.nodes@.len(),
            self.edges_closed(),
        ensures
            r@.no_duplicates(),
            forall|i: int| 0 <= i < r@.len() ==> (#[trigger] r@[i]) < self.nodes@.len(),
            r@.contains(start.index),
            forall|t: usize|
                t < self.nodes@.len() ==> (#[trigger] r@.contains(t) <==> reachable(
                    self.edges@,
                    start.index,
                    t,
                )),
    {
        let ghost es = self.edges@;
        let n = self.nodes.len();
        let mut visited: Vec<bool> = Vec::new();
        let mut i: usize = 0;
        while i < n
            invariant
                i <= n,
                visited@.len() == i,
                forall|k: int| 0 <= k < i ==> !(#[trigger] visited@[k]),
            decreases n - i,
        {
            visited.push(false);
            i = i + 1;
        }
        visited.set(start.index, true);
        proof {
            lemma_count_true_bounds(visited@);
            assert(reaches(es, start.index, start.index, 0));
        }
        let mut stack: Vec<(usize, usize)> = Vec::new();
        stack.push((start.index, 0));
        let mut finished: Vec<usize> = Vec::new();
        proof {
            assert(stack@[0].0 == start.index);
        }
        while stack.len() > 0
            invariant
                visited@.len() == n,
                n == self.nodes@.len(),
                es == self.edges@,
                self.edges_closed(),
                count_true(visited@) <= n,
                visited@[start.index as int],
                forall|p: int|
                    0 <= p < stack@.len() ==> (#[trigger] stack@[p]).0 < n && visited@[stack@[p].0 as int]
                        && stack@[p].1 <= es.len(),
                forall|p: int, q: int|
                    0 <= p < q < stack@.len() ==> (#[trigger] stack@[p]).0 != (#[trigger] stack@[q]).0,
                finished@.no_duplicates(),
                forall|p: int|
                    0 <= p < finished@.len() ==> (#[trigger] finished@[p]) < n && visited@[finished@[p] as int],
                forall|p: int, q: int|
                    0 <= p < stack@.len() && 0 <= q < finished@.len() ==> (#[trigger] stack@[p]).0
                        != (#[trigger] finished@[q]),
                forall|t: int|
                    0 <= t < n && #[trigger] visited@[t] ==> (exists|p: int|
                        0 <= p < stack@.len() && (#[trigger] stack@[p]).0 as int == t)
                        || finished@.contains(t as usize),
                forall|t: int|
                    0 <= t < n && #[trigger] visited@[t] ==> reachable(es, start.index, t as usize),
                forall|p: int, x: int|
                    #![trigger stack@[p], es[x]]
                    0 <= p < stack@.len() && 0 <= x < stack@[p].1 && es[x].source == stack@[p].0
                        ==> visited@[es[x].target as int],
                forall|q: int, x: int|
                    #![trigger finished@[q], es[x]]
                    0 <= q < finished@.len() && 0 <= x < es.len() && es[x].source == finished@[q]
                        ==> visited@[es[x].target as int],
            decreases n - count_true(visited@), stack@.len(),
        {
            let ghost stack0 = stack@;
            let ghost fin0 = finished@;
            let ghost vis0 = visited@;
            let top = stack.len() - 1;
            let (node, cur) = stack[top];
            let mut j = cur;
            while j < self.edges.len() && !(self.edges[j].source == node
                && !visited[self.edges[j].target])
                invariant
                    cur <= j <= es.len(),
                    n == self.nodes@.len(),
                    es == self.edges@,
                    self.edges_closed(),
                    visited@.len() == n,
                    forall|x: int|
                        cur <= x < j ==> !((#[trigger] es[x]).source == node
                            && !visited@[es[x].target as int]),
                decreases es.len() - j,
            {
                j = j + 1;
            }
            if j < self.edges.len() {
                let t = self.edges[j].target;
                stack.set(top, (node, j + 1));
                proof {
                    lemma_count_true_update(visited@, t as int);
                    assert(visited@[node as int]);
                    lemma_reaches_step(es, start.index, j as int);
                }
                visited.set(t, true);
                stack.push((t, 0));
                proof {
                    lemma_count_true_bounds(visited@);
                    // every visited node still sits on the stack or in finished
                    assert forall|t2: int|
                        0 <= t2 < n && #[trigger] visited@[t2] implies (exists|p: int|
                        0 <= p < stack@.len() && (#[trigger] stack@[p]).0 as int == t2)
                        || finished@.contains(t2 as usize) by {
                        if t2 == t as int {
                            assert(stack@[stack@.len() - 1].0 as int == t2);
                        } else {
                            assert(vis0[t2]);
                            if exists|p: int|
                                0 <= p < stack0.len() && (#[trigger] stack0[p]).0 as int == t2 {
                                let p = choose|p: int|
                                    0 <= p < stack0.len() && (#[trigger] stack0[p]).0 as int
                                        == t2;
                                assert(stack@[p].0 as int == t2);
                            }
                        }
                    }
                    // all cursors still point past scanned edges only
                    assert forall|p: int, x: int|
                        #![trigger stack@[p], es[x]]
                        0 <= p < stack@.len() && 0 <= x < stack@[p].1 && es[x].source
                            == stack@[p].0 implies visited@[es[x].target as int] by {
                        if p == top as int {
                            if x < cur {
                                assert(stack0[p].0 == node && x < stack0[p].1);
                            } else if x < j {
                                assert(!(es[x].source == node && !vis0[es[x].target as int]));
                            } else {
                                assert(x == j);
                            }
                        } else if p < top as int {
                            assert(stack@[p] == stack0[p]);
                        }
                    }
                }
            } else {
                let popped = stack.pop();
                finished.push(node);
                proof {
                    assert(finished@.last() == node);
                    assert forall|t2: int|
                        0 <= t2 < n && #[trigger] visited@[t2] implies (exists|p: int|
                        0 <= p < stack@.len() && (#[trigger] stack@[p]).0 as int == t2)
                        || finished@.contains(t2 as usize) by {
                        if exists|p: int|
                            0 <= p < stack0.len() && (#[trigger] stack0[p]).0 as int == t2 {
                            let p = choose|p: int|
                                0 <= p < stack0.len() && (#[trigger] stack0[p]).0 as int == t2;
                            if p < stack0.len() - 1 {
                                assert(stack@[p].0 as int == t2);
                            } else {
                                assert(finished@.last() as int == t2);
                                assert(finished@.contains(t2 as usize));
                            }
                        } else {
                            let q = choose|q: int|
                                0 <= q < fin0.len() && fin0[q] as int == t2;
                            assert(finished@[q] as int == t2);
                            assert(finished@.contains(t2 as usize));
                        }
                    }
                    // the popped node has scanned all its edges
                    assert forall|q: int, x: int|
                        #![trigger finished@[q], es[x]]
                        0 <= q < finished@.len() && 0 <= x < es.len() && es[x].source
                            == finished@[q] implies visited@[es[x].target as int] by {
                        if q == finished@.len() - 1 {
                            if x < cur {
                                assert(stack0[top as int].0 == node && x < stack0[top as int].1);
                            } else {
                                assert(!(es[x].source == node && !visited@[es[x].target as int]));
                            }
                        } else {
                            assert(finished@[q] == fin0[q]);
                        }
                    }
                }
            }
        }
        proof {
            // with the stack empty, the visited set is exactly `finished`,
            // closed under successors, so it is exactly the reachable set
            assert forall|t: usize|
                t < self.nodes@.len() implies (#[trigger] finished@.contains(t) <==> reachable(
                es,
                start.index,
                t,
            )) by {
                if finished@.contains(t) {
                    let q = choose|q: int| 0 <= q < finished@.len() && finished@[q] == t;
                    assert(visited@[t as int]);
                }
                if reachable(es, start.index, t) {
                    let k = choose|k: nat| reaches(es, start.index, t, k);
                    assert forall|x: int|
                        0 <= x < es.len() && visited@[(#[trigger] es[x]).source as int] implies
                        visited@[es[x].target as int] by {
                        let src = es[x].source;
                        assert(visited@[src as int]);
                        assert(finished@.contains(src));
                        let q = choose|q: int|
                            0 <= q < finished@.len() && finished@[q] == src;
                        assert(visited@[es[x].target as int]);
                    }
                    lemma_reach_in_closed(es, start.index, t, k, visited@);
                    assert(visited@[t as int]);
                    assert(finished@.contains(t));
                }
            }
            assert(reachable(es, start.index, start.index)) by {
                assert(reaches(es, start.index, start.index, 0));
            }
            assert(finished@.contains(start.index));
        }
        finished
    }
}

proof fn lemma_no_var_not_in_unresolved(ns: Seq<CfgNodeV>, v: crate::value::VariableV)
    requires
        forall|k: int| 0 <= k < ns.len() ==> (#[trigger] ns[k]) != CfgNodeV::Value(
            ValueV::Variable(v),
        ),
    ensures
        !unresolved_vars(ns).contains(v),
    decreases ns.len(),
{
    if ns.len() > 0 {
        lemma_no_var_not_in_unresolved(ns.drop_last(), v);
        let rest = unresolved_vars(ns.drop_last());
        if unresolved_vars(ns).contains(v) {
            let idx = choose|idx: int|
                0 <= idx < unresolved_vars(ns).len() && unresolved_vars(ns)[idx] == v;
            match ns.last() {
                CfgNodeV::Value(ValueV::Variable(w)) => {
                    if idx < rest.len() {
                        assert(rest.contains(v));
                    } else {
                        assert(w == v);
                        assert(ns[ns.len() - 1] == CfgNodeV::Value(ValueV::Variable(v)));
                    }
                },
                _ => {
                    assert(rest.contains(v));
                },
            }
        }
    }
}

/// A variable listed by `unresolved_vars` is carried by some node.
pub proof fn lemma_unresolved_has_node(ns: Seq<CfgNodeV>, v: crate::value::VariableV)
    requires
        unresolved_vars(ns).contains(v),
    ensures
        exists|i: int| 0 <= i < ns.len() && #[trigger] ns[i] == CfgNodeV::Value(
            ValueV::Variable(v),
        ),
    decreases ns.len(),
{
    let uv = unresolved_vars(ns);
    let rest = unresolved_vars(ns.drop_last());
    let idx = choose|idx: int| 0 <= idx < uv.len() && uv[idx] == v;
    match ns.last() {
        CfgNodeV::Value(ValueV::Variable(w)) => {
            if idx < rest.len() {
                assert(rest.contains(v));
                lemma_unresolved_has_node(ns.drop_last(), v);
                let i = choose|i: int|
                    0 <= i < ns.drop_last().len() && #[trigger] ns.drop_last()[i]
                        == CfgNodeV::Value(ValueV::Variable(v));
                assert(ns[i] == CfgNodeV::Value(ValueV::Variable(v)));
            } else {
                assert(w == v);
                assert(ns[ns.len() - 1] == CfgNodeV::Value(ValueV::Variable(v)));
            }
        },
        _ => {
            assert(rest.contains(v));
            lemma_unresolved_has_node(ns.drop_last(), v);
            let i = choose|i: int|
                0 <= i < ns.drop_last().len() && #[trigger] ns.drop_last()[i] == CfgNodeV::Value(
                    ValueV::Variable(v),
                );
            assert(ns[i] == CfgNodeV::Value(ValueV::Variable(v)));
        },
    }
}

/// Resolving the only unresolved-target node that carries the variable
/// `v` to a constant removes `v` from the unresolved variables: after the
/// point edit, `v` no longer appears among the indirect jumps.
pub proof fn lemma_resolve_removes_variable(
    nv: Seq<CfgNodeV>,
    nv2: Seq<CfgNodeV>,
    v: crate::value::VariableV,
    c: Constant,
)
    requires
        exists|i: int|
            {
                &&& 0 <= i < nv.len()
                &&& #[trigger] nv[i] == CfgNodeV::Value(ValueV::Variable(v))
                &&& forall|k: int|
                    0 <= k < nv.len() && k != i ==> nv[k] != CfgNodeV::Value(ValueV::Variable(v))
                &&& nv2 == nv.update(i, CfgNodeV::Value(ValueV::Constant(c)))
            },
    ensures
        !unresolved_vars(nv2).contains(v),
{
    let i = choose|i: int|
        {
            &&& 0 <= i < nv.len()
            &&& #[trigger] nv[i] == CfgNodeV::Value(ValueV::Variable(v))
            &&& forall|k: int|
                0 <= k < nv.len() && k != i ==> nv[k] != CfgNodeV::Value(ValueV::Variable(v))
            &&& nv2 == nv.update(i, CfgNodeV::Value(ValueV::Constant(c)))
        };
    assert forall|k: int|
        0 <= k < nv2.len() implies (#[trigger] nv2[k]) != CfgNodeV::Value(
        ValueV::Variable(v),
    ) by {
        if k != i {
            assert(nv2[k] == nv[k]);
        }
    }
    lemma_no_var_not_in_unresolved(nv2, v);
}

} // verus!
