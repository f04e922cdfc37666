//! The raw instantiation graph: a directed acyclic graph over the domain
//! entities of a trace (instantiations, e-nodes, equality facts), with one
//! directed edge per causal dependency. Topology is immutable after
//! construction; only the per-node `visible` and `disabled` flags change.
//!
//! Nodes are addressed by dense, stable origin indices. Every edge points
//! from a lower origin index to a higher one, reflecting causal discovery
//! order; cycles are not representable.
use vstd::prelude::*;

use crate::items::{ENodeIdx, EqGivenIdx, EqTransIdx, InstIdx, QuantIdx};

verus! {

/// A constructor error or a rejected filter argument.
#[derive(Clone, Copy, PartialEq, Eq, Structural, Debug)]
pub enum GraphError {
    /// The fact store's dependency list references a source line with no
    /// node, or an edge that would not point forward in discovery order.
    /// This is an upstream data-consistency fault; the graph is not built.
    InconsistentDependencies,
    /// A filter referenced an origin index outside the raw graph.
    NodeOutOfRange,
}

/// What a node stands for: exactly one domain entity.
#[derive(Clone, Copy, PartialEq, Eq, Structural, Debug)]
pub enum NodeKind {
    /// One firing of a quantifier's trigger pattern.
    Instantiation(InstIdx),
    /// A term occurrence, produced as a yield of an instantiation or
    /// pre-existing.
    ENode(ENodeIdx),
    /// A directly asserted equality fact.
    GivenEquality(EqGivenIdx),
    /// An equality derived by transitive chaining.
    TransEquality(EqTransIdx),
}

impl NodeKind {
    pub open spec fn is_inst(&self) -> bool {
        self is Instantiation
    }
}

/// The kind of causal relationship an edge records.
#[derive(Clone, Copy, PartialEq, Eq, Structural, Debug)]
pub enum EdgeKind {
    /// Instantiation -> produced e-node.
    Yield,
    /// E-node -> instantiation that matched on it, with the position of the
    /// trigger term that matched.
    Blame { trigger_term: u16 },
    /// E-node -> equality node establishing its representative.
    EqualityFact,
    /// Transitive-equality link.
    TEqualitySimple,
    /// Equality-mediated blame, with trigger position and equality ordinal.
    BlameEq { trigger_term: u16, eq_order: u16 },
}

/// Everything the engine records per node. The semantic fields (`kind`,
/// `cost`, `is_theory_inst`, `quant`, `quant_name`) come from the fact
/// store; the remaining fields are derived by [`InstGraph::finalize`] or
/// mutated by the filter and disabling engines.
#[derive(Clone, Debug)]
pub struct NodeData {
    pub kind: NodeKind,
    /// Computational cost attributed to the node (instantiations only;
    /// zero elsewhere).
    pub cost: u64,
    /// Whether the instantiation was discovered by theory solving rather
    /// than triggered by a pattern.
    pub is_theory_inst: bool,
    /// The quantifier an instantiation belongs to; `None` for
    /// instantiations discovered without a quantifier and for
    /// non-instantiation nodes.
    pub quant: Option<QuantIdx>,
    /// The quantifier's display name, where it has one.
    pub quant_name: Option<String>,
    /// Whether the node is part of the current visible subgraph.
    pub visible: bool,
    /// Whether the disabling engine marked the node structurally
    /// uninteresting.
    pub disabled: bool,
    /// Number of direct successors in the raw graph.
    pub child_count: usize,
    /// Number of direct predecessors in the raw graph.
    pub parent_count: usize,
    /// Minimum number of hops from any root (node without parents).
    pub fwd_depth: usize,
    /// Minimum number of hops to any leaf (node without children).
    pub bwd_depth: usize,
    /// Position in the cost-rank total order: the number of nodes that
    /// rank strictly higher (higher cost, or equal cost and lower index).
    pub cost_rank: usize,
}

impl NodeData {
    /// A fresh node record around the given semantic data; the derived
    /// fields start out neutral and are filled in by `finalize`.
    pub fn new(
        kind: NodeKind,
        cost: u64,
        is_theory_inst: bool,
        quant: Option<QuantIdx>,
        quant_name: Option<String>,
    ) -> (r: NodeData)
        ensures
            r.kind == kind,
            r.cost == cost,
            r.is_theory_inst == is_theory_inst,
            r.quant == quant,
            r.quant_name == quant_name,
            r.visible,
            !r.disabled,
            r.child_count == 0,
            r.parent_count == 0,
            r.fwd_depth == 0,
            r.bwd_depth == 0,
            r.cost_rank == 0,
    {
        NodeData {
            kind,
            cost,
            is_theory_inst,
            quant,
            quant_name,
            visible: true,
            disabled: false,
            child_count: 0,
            parent_count: 0,
            fwd_depth: 0,
            bwd_depth: 0,
            cost_rank: 0,
        }
    }
}

/// A directed raw edge. `from` and `to` are origin indices with
/// `from < to`: dependencies always point at later discoveries.
#[derive(Clone, Copy, PartialEq, Eq, Structural, Debug)]
pub struct Edge {
    pub from: usize,
    pub to: usize,
    pub kind: EdgeKind,
}

/// Two node records agree on everything except the `visible` and
/// `disabled` flags.
pub open spec fn same_shape(a: NodeData, b: NodeData) -> bool {
    &&& a.kind == b.kind
    &&& a.cost == b.cost
    &&& a.is_theory_inst == b.is_theory_inst
    &&& a.quant == b.quant
    &&& a.quant_name == b.quant_name
    &&& a.child_count == b.child_count
    &&& a.parent_count == b.parent_count
    &&& a.fwd_depth == b.fwd_depth
    &&& a.bwd_depth == b.bwd_depth
    &&& a.cost_rank == b.cost_rank
}

/// Pointwise `same_shape` over two node sequences.
pub open spec fn same_shape_seq(a: Seq<NodeData>, b: Seq<NodeData>) -> bool {
    &&& a.len() == b.len()
    &&& forall|i: int| 0 <= i < a.len() ==> same_shape(a[i], #[trigger] b[i])
}

/// Every edge runs from a lower to a strictly higher index below `n`.
pub open spec fn edges_wf(n: int, edges: Seq<Edge>) -> bool {
    forall|k: int|
        0 <= k < edges.len() ==> (#[trigger] edges[k]).from < edges[k].to && edges[k].to < n
}

/// There is an edge `a -> b`.
pub open spec fn is_edge(edges: Seq<Edge>, a: int, b: int) -> bool {
    exists|k: int| 0 <= k < edges.len() && (#[trigger] edges[k]).from == a && edges[k].to == b
}

/// Number of edges among the first `upto` whose source is `i`.
pub open spec fn count_from(edges: Seq<Edge>, i: int, upto: int) -> nat
    decreases upto,
{
    if upto <= 0 {
        0
    } else {
        count_from(edges, i, upto - 1) + if edges[upto - 1].from == i {
            1nat
        } else {
            0nat
        }
    }
}

/// Number of edges among the first `upto` whose target is `i`.
pub open spec fn count_to(edges: Seq<Edge>, i: int, upto: int) -> nat
    decreases upto,
{
    if upto <= 0 {
        0
    } else {
        count_to(edges, i, upto - 1) + if edges[upto - 1].to == i {
            1nat
        } else {
            0nat
        }
    }
}

/// The cost-rank total order: `a` ranks strictly higher than `b` when its
/// cost is larger, or the costs tie and `a` has the lower origin index.
pub open spec fn cost_order_gt(nodes: Seq<NodeData>, a: int, b: int) -> bool {
    nodes[a].cost > nodes[b].cost || (nodes[a].cost == nodes[b].cost && a < b)
}

/// Number of nodes with index below `upto` ranking strictly higher than `b`.
pub open spec fn count_cost_gt(nodes: Seq<NodeData>, b: int, upto: int) -> nat
    decreases upto,
{
    if upto <= 0 {
        0
    } else {
        count_cost_gt(nodes, b, upto - 1) + if cost_order_gt(nodes, upto - 1, b) {
            1nat
        } else {
            0nat
        }
    }
}

/// The raw instantiation graph, owned by one analysis session.
#[derive(Debug)]
pub struct InstGraph {
    pub nodes: Vec<NodeData>,
    pub edges: Vec<Edge>,
    /// Monotonic counter bumped on every visible-graph rebuild, used by
    /// consumers for cheap staleness detection.
    pub generation: u64,
}

impl InstGraph {
    pub open spec fn n(&self) -> int {
        self.nodes@.len() as int
    }

    pub open spec fn m(&self) -> int {
        self.edges@.len() as int
    }

    /// Derived child/parent counts agree with the edge list.
    pub open spec fn counts_wf(&self) -> bool {
        forall|i: int|
            0 <= i < self.n() ==> {
                &&& (#[trigger] self.nodes@[i]).child_count == count_from(self.edges@, i, self.m())
                &&& self.nodes@[i].parent_count == count_to(self.edges@, i, self.m())
            }
    }

    /// Stored forward depths are the minimum hop distance from a root.
    pub open spec fn fwd_depth_wf(&self) -> bool {
        forall|i: int|
            0 <= i < self.n() ==> {
                &&& ((#[trigger] self.nodes@[i]).parent_count == 0 ==> self.nodes@[i].fwd_depth
                    == 0)
                &&& (self.nodes@[i].parent_count != 0 ==> {
                    &&& exists|k: int|
                        0 <= k < self.m() && (#[trigger] self.edges@[k]).to == i
                            && self.nodes@[i].fwd_depth == self.nodes@[self.edges@[k].from as int].fwd_depth
                            + 1
                    &&& forall|k: int|
                        0 <= k < self.m() && (#[trigger] self.edges@[k]).to == i
                            ==> self.nodes@[i].fwd_depth <= self.nodes@[self.edges@[k].from as int].fwd_depth
                            + 1
                })
            }
    }

    /// Stored backward depths are the minimum hop distance to a leaf.
    pub open spec fn bwd_depth_wf(&self) -> bool {
        forall|i: int|
            0 <= i < self.n() ==> {
                &&& ((#[trigger] self.nodes@[i]).child_count == 0 ==> self.nodes@[i].bwd_depth
                    == 0)
                &&& (self.nodes@[i].child_count != 0 ==> {
                    &&& exists|k: int|
                        0 <= k < self.m() && (#[trigger] self.edges@[k]).from == i
                            && self.nodes@[i].bwd_depth == self.nodes@[self.edges@[k].to as int].bwd_depth
                            + 1
                    &&& forall|k: int|
                        0 <= k < self.m() && (#[trigger] self.edges@[k]).from == i
                            ==> self.nodes@[i].bwd_depth <= self.nodes@[self.edges@[k].to as int].bwd_depth
                            + 1
                })
            }
    }

    /// Stored cost-ranks count the strictly higher-ranking nodes, making
    /// them a permutation of `0..n` consistent with the cost-rank order.
    pub open spec fn ranks_wf(&self) -> bool {
        forall|i: int|
            0 <= i < self.n() ==> (#[trigger] self.nodes@[i]).cost_rank == count_cost_gt(
                self.nodes@,
                i,
                self.n(),
            )
    }

    /// Structural well-formedness: the part that holds during construction,
    /// before the metadata pass.
    pub open spec fn topo_wf(&self) -> bool {
        edges_wf(self.n(), self.edges@)
    }

    /// Full well-formedness: topology plus all derived metadata. Every
    /// filter and materialization step requires and preserves this; note
    /// that it is independent of the `visible` and `disabled` flags.
    pub open spec fn wf(&self) -> bool {
        &&& self.topo_wf()
        &&& self.counts_wf()
        &&& self.fwd_depth_wf()
        &&& self.bwd_depth_wf()
        &&& self.ranks_wf()
    }

    /// The sequence of visibility flags, the only state filters mutate.
    pub open spec fn vis(&self) -> Seq<bool> {
        Seq::new(self.nodes@.len(), |i: int| self.nodes@[i].visible)
    }

    /// An empty graph.
    pub fn new() -> (g: InstGraph)
        ensures
            g.n() == 0,
            g.m() == 0,
            g.generation == 0,
            g.wf(),
    {
        InstGraph { nodes: Vec::new(), edges: Vec::new(), generation: 0 }
    }

    /// Appends a node for the given record and returns its origin index.
    /// The derived fields of `data` are ignored: the node starts visible,
    /// not disabled, and with neutral metadata until `finalize` runs.
    pub fn add_node(&mut self, data: NodeData) -> (idx: usize)
        ensures
            idx == old(self).n(),
            final(self).nodes@ == old(self).nodes@.push(
                NodeData::spec_fresh(
                    data.kind,
                    data.cost,
                    data.is_theory_inst,
                    data.quant,
                    data.quant_name,
                ),
            ),
            final(self).edges@ == old(self).edges@,
            final(self).generation == old(self).generation,
            old(self).topo_wf() ==> final(self).topo_wf(),
    {
        let idx = self.nodes.len();
        self.nodes.push(
            NodeData::new(data.kind, data.cost, data.is_theory_inst, data.quant, data.quant_name),
        );
        idx
    }

    /// Appends a directed edge. Dependencies always point from an earlier
    /// discovery to a later one, so `from < to` is demanded of the caller;
    /// this is what makes cycles unrepresentable.
    pub fn add_edge(&mut self, from: usize, to: usize, kind: EdgeKind)
        requires
            from < to < old(self).n(),
        ensures
            final(self).nodes@ == old(self).nodes@,
            final(self).edges@ == old(self).edges@.push(Edge { from, to, kind }),
            final(self).generation == old(self).generation,
            old(self).topo_wf() ==> final(self).topo_wf(),
    {
        self.edges.push(Edge { from, to, kind });
    }
}

/// `count_from` is positive exactly when a matching edge exists in the
/// prefix.
pub proof fn lemma_count_from_pos(edges: Seq<Edge>, i: int, upto: int)
    requires
        0 <= upto <= edges.len(),
    ensures
        count_from(edges, i, upto) > 0 <==> exists|k: int|
            0 <= k < upto && (#[trigger] edges[k]).from == i,
    decreases upto,
{
    if upto > 0 {
        lemma_count_from_pos(edges, i, upto - 1);
    }
}

/// `count_to` is positive exactly when a matching edge exists in the
/// prefix.
pub proof fn lemma_count_to_pos(edges: Seq<Edge>, i: int, upto: int)
    requires
        0 <= upto <= edges.len(),
    ensures
        count_to(edges, i, upto) > 0 <==> exists|k: int|
            0 <= k < upto && (#[trigger] edges[k]).to == i,
    decreases upto,
{
    if upto > 0 {
        lemma_count_to_pos(edges, i, upto - 1);
    }
}

/// `count_cost_gt` reads only the cost fields, so it is stable under any
/// update that keeps every cost.
pub proof fn lemma_count_cost_gt_congruence(a: Seq<NodeData>, b: Seq<NodeData>, i: int, upto: int)
    requires
        a.len() == b.len(),
        forall|j: int| 0 <= j < a.len() ==> (#[trigger] a[j]).cost == b[j].cost,
        0 <= upto <= a.len(),
        0 <= i < a.len(),
    ensures
        count_cost_gt(a, i, upto) == count_cost_gt(b, i, upto),
    decreases upto,
{
    if upto > 0 {
        lemma_count_cost_gt_congruence(a, b, i, upto - 1);
    }
}

impl InstGraph {
    /// Replaces the derived child/parent counts of node `i`.
    fn set_counts(&mut self, i: usize, c: usize, p: usize)
        requires
            i < old(self).n(),
        ensures
            final(self).nodes@ == old(self).nodes@.update(
                i as int,
                NodeData { child_count: c, parent_count: p, ..old(self).nodes@[i as int] },
            ),
            final(self).edges@ == old(self).edges@,
            final(self).generation == old(self).generation,
    {
        let nd = &self.nodes[i];
        let repl = NodeData {
            kind: nd.kind,
            cost: nd.cost,
            is_theory_inst: nd.is_theory_inst,
            quant: nd.quant,
            quant_name: clone_name(&nd.quant_name),
            visible: nd.visible,
            disabled: nd.disabled,
            child_count: c,
            parent_count: p,
            fwd_depth: nd.fwd_depth,
            bwd_depth: nd.bwd_depth,
            cost_rank: nd.cost_rank,
        };
        self.nodes.set(i, repl);
    }

    /// Replaces the forward depth of node `i`.
    fn set_fwd_depth(&mut self, i: usize, d: usize)
        requires
            i < old(self).n(),
        ensures
            final(self).nodes@ == old(self).nodes@.update(
                i as int,
                NodeData { fwd_depth: d, ..old(self).nodes@[i as int] },
            ),
            final(self).edges@ == old(self).edges@,
            final(self).generation == old(self).generation,
    {
        let nd = &self.nodes[i];
        let repl = NodeData {
            kind: nd.kind,
            cost: nd.cost,
            is_theory_inst: nd.is_theory_inst,
            quant: nd.quant,
            quant_name: clone_name(&nd.quant_name),
            visible: nd.visible,
            disabled: nd.disabled,
            child_count: nd.child_count,
            parent_count: nd.parent_count,
            fwd_depth: d,
            bwd_depth: nd.bwd_depth,
            cost_rank: nd.cost_rank,
        };
        self.nodes.set(i, repl);
    }

    /// Replaces the backward depth of node `i`.
    fn set_bwd_depth(&mut self, i: usize, d: usize)
        requires
            i < old(self).n(),
        ensures
            final(self).nodes@ == old(self).nodes@.update(
                i as int,
                NodeData { bwd_depth: d, ..old(self).nodes@[i as int] },
            ),
            final(self).edges@ == old(self).edges@,
            final(self).generation == old(self).generation,
    {
        let nd = &self.nodes[i];
        let repl = NodeData {
            kind: nd.kind,
            cost: nd.cost,
            is_theory_inst: nd.is_theory_inst,
            quant: nd.quant,
            quant_name: clone_name(&nd.quant_name),
            visible: nd.visible,
            disabled: nd.disabled,
            child_count: nd.child_count,
            parent_count: nd.parent_count,
            fwd_depth: nd.fwd_depth,
            bwd_depth: d,
            cost_rank: nd.cost_rank,
        };
        self.nodes.set(i, repl);
    }

    /// Replaces the cost-rank of node `i`.
    fn set_cost_rank(&mut self, i: usize, r: usize)
        requires
            i < old(self).n(),
        ensures
            final(self).nodes@ == old(self).nodes@.update(
                i as int,
                NodeData { cost_rank: r, ..old(self).nodes@[i as int] },
            ),
            final(self).edges@ == old(self).edges@,
            final(self).generation == old(self).generation,
    {
        let nd = &self.nodes[i];
        let repl = NodeData {
            kind: nd.kind,
            cost: nd.cost,
            is_theory_inst: nd.is_theory_inst,
            quant: nd.quant,
            quant_name: clone_name(&nd.quant_name),
            visible: nd.visible,
            disabled: nd.disabled,
            child_count: nd.child_count,
            parent_count: nd.parent_count,
            fwd_depth: nd.fwd_depth,
            bwd_depth: nd.bwd_depth,
            cost_rank: r,
        };
        self.nodes.set(i, repl);
    }

    /// Replaces the visibility flag of node `i`.
    pub(crate) fn set_visible(&mut self, i: usize, v: bool)
        requires
            i < old(self).n(),
        ensures
            final(self).nodes@ == old(self).nodes@.update(
                i as int,
                NodeData { visible: v, ..old(self).nodes@[i as int] },
            ),
            final(self).edges@ == old(self).edges@,
            final(self).generation == old(self).generation,
    {
        let nd = &self.nodes[i];
        let repl = NodeData {
            kind: nd.kind,
            cost: nd.cost,
            is_theory_inst: nd.is_theory_inst,
            quant: nd.quant,
            quant_name: clone_name(&nd.quant_name),
            visible: v,
            disabled: nd.disabled,
            child_count: nd.child_count,
            parent_count: nd.parent_count,
            fwd_depth: nd.fwd_depth,
            bwd_depth: nd.bwd_depth,
            cost_rank: nd.cost_rank,
        };
        self.nodes.set(i, repl);
    }

    /// Replaces the disabled flag of node `i`.
    pub(crate) fn set_disabled(&mut self, i: usize, v: bool)
        requires
            i < old(self).n(),
        ensures
            final(self).nodes@ == old(self).nodes@.update(
                i as int,
                NodeData { disabled: v, ..old(self).nodes@[i as int] },
            ),
            final(self).edges@ == old(self).edges@,
            final(self).generation == old(self).generation,
    {
        let nd = &self.nodes[i];
        let repl = NodeData {
            kind: nd.kind,
            cost: nd.cost,
            is_theory_inst: nd.is_theory_inst,
            quant: nd.quant,
            quant_name: clone_name(&nd.quant_name),
            visible: nd.visible,
            disabled: v,
            child_count: nd.child_count,
            parent_count: nd.parent_count,
            fwd_depth: nd.fwd_depth,
            bwd_depth: nd.bwd_depth,
            cost_rank: nd.cost_rank,
        };
        self.nodes.set(i, repl);
    }
}

/// Two node records agree on every field the fact store supplied, and on
/// the visibility flags; only the derived metadata may differ.
pub open spec fn sem_eq(a: NodeData, b: NodeData) -> bool {
    &&& a.kind == b.kind
    &&& a.cost == b.cost
    &&& a.is_theory_inst == b.is_theory_inst
    &&& a.quant == b.quant
    &&& a.quant_name == b.quant_name
    &&& a.visible == b.visible
    &&& a.disabled == b.disabled
}

/// Pointwise `sem_eq` over two node sequences.
pub open spec fn sem_eq_seq(a: Seq<NodeData>, b: Seq<NodeData>) -> bool {
    &&& a.len() == b.len()
    &&& forall|i: int| 0 <= i < a.len() ==> sem_eq(a[i], #[trigger] b[i])
}

impl InstGraph {
    /// The one pass run after construction: computes child/parent counts,
    /// forward and backward depths, and the cost-rank total order for every
    /// node. Afterwards the graph is fully well-formed and ready for the
    /// filter engine.
    pub fn finalize(&mut self)
        requires
            old(self).topo_wf(),
        ensures
            final(self).wf(),
            final(self).edges@ == old(self).edges@,
            final(self).generation == old(self).generation,
            sem_eq_seq(final(self).nodes@, old(self).nodes@),
    {
        self.compute_counts();
        self.compute_fwd_depths();
        self.compute_bwd_depths();
        self.compute_ranks();
    }

    /// Counts the direct successors and predecessors of every node.
    #[verifier::loop_isolation(false)]
    fn compute_counts(&mut self)
        ensures
            final(self).topo_wf() == old(self).topo_wf(),
            final(self).edges@ == old(self).edges@,
            final(self).generation == old(self).generation,
            sem_eq_seq(final(self).nodes@, old(self).nodes@),
            final(self).counts_wf(),
    {
        let n = self.nodes.len();
        let m = self.edges.len();
        let mut i: usize = 0;
        while i < n
            invariant
                i <= n,
                self.n() == n,
                self.edges@ == old(self).edges@,
                self.generation == old(self).generation,
                sem_eq_seq(self.nodes@, old(self).nodes@),
                forall|j: int|
                    0 <= j < i ==> {
                        &&& (#[trigger] self.nodes@[j]).child_count == count_from(
                            self.edges@,
                            j,
                            m as int,
                        )
                        &&& self.nodes@[j].parent_count == count_to(self.edges@, j, m as int)
                    },
            decreases n - i,
        {
            let mut c: usize = 0;
            let mut p: usize = 0;
            let mut k: usize = 0;
            while k < m
                invariant
                    k <= m,
                    c == count_from(self.edges@, i as int, k as int),
                    p == count_to(self.edges@, i as int, k as int),
                    c <= k,
                    p <= k,
                decreases m - k,
            {
                if self.edges[k].from == i {
                    c = c + 1;
                }
                if self.edges[k].to == i {
                    p = p + 1;
                }
                k = k + 1;
            }
            self.set_counts(i, c, p);
            i = i + 1;
        }
    }

    /// Computes forward depths in increasing index order: every parent has
    /// a smaller index, so its depth is already settled.
    #[verifier::loop_isolation(false)]
    fn compute_fwd_depths(&mut self)
        requires
            old(self).topo_wf(),
            old(self).counts_wf(),
        ensures
            final(self).topo_wf(),
            final(self).edges@ == old(self).edges@,
            final(self).generation == old(self).generation,
            sem_eq_seq(final(self).nodes@, old(self).nodes@),
            final(self).counts_wf(),
            final(self).fwd_depth_wf(),
    {
        let n = self.nodes.len();
        let m = self.edges.len();
        let mut i: usize = 0;
        while i < n
            invariant
                i <= n,
                self.n() == n,
                self.edges@ == old(self).edges@,
                self.generation == old(self).generation,
                sem_eq_seq(self.nodes@, old(self).nodes@),
                self.counts_wf(),
                forall|j: int| 0 <= j < i ==> (#[trigger] self.nodes@[j]).fwd_depth <= j,
                forall|j: int|
                    0 <= j < i ==> {
                        &&& ((#[trigger] self.nodes@[j]).parent_count == 0 ==> self.nodes@[j].fwd_depth
                            == 0)
                        &&& (self.nodes@[j].parent_count != 0 ==> {
                            &&& exists|k: int|
                                0 <= k < m && (#[trigger] self.edges@[k]).to == j
                                    && self.nodes@[j].fwd_depth == self.nodes@[self.edges@[k].from as int].fwd_depth
                                    + 1
                            &&& forall|k: int|
                                0 <= k < m && (#[trigger] self.edges@[k]).to == j
                                    ==> self.nodes@[j].fwd_depth <= self.nodes@[self.edges@[k].from as int].fwd_depth
                                    + 1
                        })
                    },
            decreases n - i,
        {
            let mut best: usize = 0;
            let mut found = false;
            let mut k: usize = 0;
            while k < m
                invariant
                    k <= m,
                    found <==> exists|k2: int|
                        0 <= k2 < k && (#[trigger] self.edges@[k2]).to == i,
                    found ==> exists|k2: int|
                        0 <= k2 < k && (#[trigger] self.edges@[k2]).to == i && best
                            == self.nodes@[self.edges@[k2].from as int].fwd_depth + 1,
                    forall|k2: int|
                        0 <= k2 < k && (#[trigger] self.edges@[k2]).to == i ==> best
                            <= self.nodes@[self.edges@[k2].from as int].fwd_depth + 1,
                    found ==> best <= i,
                decreases m - k,
            {
                if self.edges[k].to == i {
                    let f = self.edges[k].from;
                    let cand = self.nodes[f].fwd_depth + 1;
                    if !found || cand < best {
                        best = cand;
                        found = true;
                    }
                }
                k = k + 1;
            }
            let d = if found {
                best
            } else {
                0
            };
            proof {
                lemma_count_to_pos(self.edges@, i as int, m as int);
            }
            self.set_fwd_depth(i, d);
            i = i + 1;
        }
    }

    /// Computes backward depths in decreasing index order: every child has
    /// a larger index.
    #[verifier::loop_isolation(false)]
    #[verifier::rlimit(80)]
    fn compute_bwd_depths(&mut self)
        requires
            old(self).topo_wf(),
            old(self).counts_wf(),
            old(self).fwd_depth_wf(),
        ensures
            final(self).topo_wf(),
            final(self).edges@ == old(self).edges@,
            final(self).generation == old(self).generation,
            sem_eq_seq(final(self).nodes@, old(self).nodes@),
            final(self).counts_wf(),
            final(self).fwd_depth_wf(),
            final(self).bwd_depth_wf(),
    {
        let n = self.nodes.len();
        let m = self.edges.len();
        let mut i: usize = n;
        while i > 0
            invariant
                i <= n,
                self.n() == n,
                self.edges@ == old(self).edges@,
                self.generation == old(self).generation,
                sem_eq_seq(self.nodes@, old(self).nodes@),
                self.counts_wf(),
                self.fwd_depth_wf(),
                forall|j: int| i <= j < n ==> (#[trigger] self.nodes@[j]).bwd_depth <= n - 1 - j,
                forall|j: int|
                    i <= j < n ==> {
                        &&& ((#[trigger] self.nodes@[j]).child_count == 0 ==> self.nodes@[j].bwd_depth
                            == 0)
                        &&& (self.nodes@[j].child_count != 0 ==> {
                            &&& exists|k: int|
                                0 <= k < m && (#[trigger] self.edges@[k]).from == j
                                    && self.nodes@[j].bwd_depth == self.nodes@[self.edges@[k].to as int].bwd_depth
                                    + 1
                            &&& forall|k: int|
                                0 <= k < m && (#[trigger] self.edges@[k]).from == j
                                    ==> self.nodes@[j].bwd_depth <= self.nodes@[self.edges@[k].to as int].bwd_depth
                                    + 1
                        })
                    },
            decreases i,
        {
            i = i - 1;
            let mut best: usize = 0;
            let mut found = false;
            let mut k: usize = 0;
            while k < m
                invariant
                    k <= m,
                    found <==> exists|k2: int|
                        0 <= k2 < k && (#[trigger] self.edges@[k2]).from == i,
                    found ==> exists|k2: int|
                        0 <= k2 < k && (#[trigger] self.edges@[k2]).from == i && best
                            == self.nodes@[self.edges@[k2].to as int].bwd_depth + 1,
                    forall|k2: int|
                        0 <= k2 < k && (#[trigger] self.edges@[k2]).from == i ==> best
                            <= self.nodes@[self.edges@[k2].to as int].bwd_depth + 1,
                    found ==> best <= n - 1 - i,
                decreases m - k,
            {
                if self.edges[k].from == i {
                    let t = self.edges[k].to;
                    let cand = self.nodes[t].bwd_depth + 1;
                    if !found || cand < best {
                        best = cand;
                        found = true;
                    }
                }
                k = k + 1;
            }
            let d = if found {
                best
            } else {
                0
            };
            proof {
                lemma_count_from_pos(self.edges@, i as int, m as int);
            }
            self.set_bwd_depth(i, d);
        }
    }

    /// Computes the cost-rank of every node: first every rank is computed
    /// against a frozen snapshot, then written back; ranks read only costs,
    /// which no write here changes.
    #[verifier::loop_isolation(false)]
    #[verifier::rlimit(80)]
    fn compute_ranks(&mut self)
        requires
            old(self).topo_wf(),
            old(self).counts_wf(),
            old(self).fwd_depth_wf(),
            old(self).bwd_depth_wf(),
        ensures
            final(self).wf(),
            final(self).edges@ == old(self).edges@,
            final(self).generation == old(self).generation,
            sem_eq_seq(final(self).nodes@, old(self).nodes@),
    {
        let n = self.nodes.len();
        let m = self.edges.len();
        let mut ranks: Vec<usize> = Vec::new();
        let mut i: usize = 0;
        while i < n
            invariant
                i <= n,
                ranks@.len() == i,
                forall|j: int|
                    0 <= j < i ==> (#[trigger] ranks@[j]) == count_cost_gt(
                        self.nodes@,
                        j,
                        n as int,
                    ),
            decreases n - i,
        {
            let mut c: usize = 0;
            let mut u: usize = 0;
            while u < n
                invariant
                    u <= n,
                    c <= u,
                    c == count_cost_gt(self.nodes@, i as int, u as int),
                decreases n - u,
            {
                let a = self.nodes[u].cost;
                let b = self.nodes[i].cost;
                if a > b || (a == b && u < i) {
                    c = c + 1;
                }
                u = u + 1;
            }
            ranks.push(c);
            i = i + 1;
        }
        let ghost nodes_mid = self.nodes@;
        let mut i: usize = 0;
        while i < n
            invariant
                i <= n,
                self.n() == n,
                self.edges@ == old(self).edges@,
                self.generation == old(self).generation,
                sem_eq_seq(self.nodes@, old(self).nodes@),
                self.counts_wf(),
                self.fwd_depth_wf(),
                self.bwd_depth_wf(),
                forall|j: int| 0 <= j < n ==> (#[trigger] self.nodes@[j]).cost == nodes_mid[j].cost,
                forall|j: int|
                    0 <= j < i ==> (#[trigger] self.nodes@[j]).cost_rank == count_cost_gt(
                        nodes_mid,
                        j,
                        n as int,
                    ),
            decreases n - i,
        {
            let r = ranks[i];
            self.set_cost_rank(i, r);
            i = i + 1;
        }
        proof {
            assert forall|j: int|
                0 <= j < n implies (#[trigger] self.nodes@[j]).cost_rank == count_cost_gt(
                self.nodes@,
                j,
                n as int,
            ) by {
                lemma_count_cost_gt_congruence(nodes_mid, self.nodes@, j, n as int);
            }
        }
    }
}

/// Full well-formedness never depends on the visible or disabled flags:
/// any update that keeps every other field keeps `wf`.
pub proof fn lemma_wf_same_shape(g1: InstGraph, g2: InstGraph)
    requires
        g1.wf(),
        g2.edges@ == g1.edges@,
        same_shape_seq(g2.nodes@, g1.nodes@),
    ensures
        g2.wf(),
{
    assert(g2.nodes@.len() == g1.nodes@.len());
    assert forall|i: int|
        0 <= i < g2.n() implies (#[trigger] g2.nodes@[i]).cost_rank == count_cost_gt(
        g2.nodes@,
        i,
        g2.n(),
    ) by {
        assert(same_shape(g2.nodes@[i], g1.nodes@[i]));
        assert forall|j: int| 0 <= j < g2.n() implies (#[trigger] g2.nodes@[j]).cost
            == g1.nodes@[j].cost by {
            assert(same_shape(g2.nodes@[j], g1.nodes@[j]));
        }
        lemma_count_cost_gt_congruence(g1.nodes@, g2.nodes@, i, g1.n());
    }
    assert forall|i: int|
        0 <= i < g2.n() implies same_shape(#[trigger] g2.nodes@[i], g1.nodes@[i]) by {}
    assert(g2.counts_wf());
    assert(g2.fwd_depth_wf()) by {
        assert forall|i: int|
            0 <= i < g2.n() && (#[trigger] g2.nodes@[i]).parent_count != 0 implies exists|k: int|
                0 <= k < g2.m() && (#[trigger] g2.edges@[k]).to == i && g2.nodes@[i].fwd_depth
                    == g2.nodes@[g2.edges@[k].from as int].fwd_depth + 1 by {
            assert(same_shape(g2.nodes@[i], g1.nodes@[i]));
            let k = choose|k: int|
                0 <= k < g1.m() && (#[trigger] g1.edges@[k]).to == i && g1.nodes@[i].fwd_depth
                    == g1.nodes@[g1.edges@[k].from as int].fwd_depth + 1;
            assert(same_shape(g2.nodes@[g1.edges@[k].from as int], g1.nodes@[g1.edges@[k].from as int]));
            assert(0 <= k < g2.m() && g2.edges@[k].to == i && g2.nodes@[i].fwd_depth
                == g2.nodes@[g2.edges@[k].from as int].fwd_depth + 1);
        }
        assert forall|k: int|
            0 <= k < g2.m() implies g2.nodes@[(#[trigger] g2.edges@[k]).to as int].fwd_depth
            <= g2.nodes@[g2.edges@[k].from as int].fwd_depth + 1 by {
            assert(same_shape(g2.nodes@[g2.edges@[k].to as int], g1.nodes@[g2.edges@[k].to as int]));
            assert(same_shape(g2.nodes@[g2.edges@[k].from as int], g1.nodes@[g2.edges@[k].from as int]));
        }
    }
    assert(g2.bwd_depth_wf()) by {
        assert forall|i: int|
            0 <= i < g2.n() && (#[trigger] g2.nodes@[i]).child_count != 0 implies exists|k: int|
                0 <= k < g2.m() && (#[trigger] g2.edges@[k]).from == i && g2.nodes@[i].bwd_depth
                    == g2.nodes@[g2.edges@[k].to as int].bwd_depth + 1 by {
            assert(same_shape(g2.nodes@[i], g1.nodes@[i]));
            let k = choose|k: int|
                0 <= k < g1.m() && (#[trigger] g1.edges@[k]).from == i && g1.nodes@[i].bwd_depth
                    == g1.nodes@[g1.edges@[k].to as int].bwd_depth + 1;
            assert(same_shape(g2.nodes@[g1.edges@[k].to as int], g1.nodes@[g1.edges@[k].to as int]));
            assert(0 <= k < g2.m() && g2.edges@[k].from == i && g2.nodes@[i].bwd_depth
                == g2.nodes@[g2.edges@[k].to as int].bwd_depth + 1);
        }
        assert forall|k: int|
            0 <= k < g2.m() implies g2.nodes@[(#[trigger] g2.edges@[k]).from as int].bwd_depth
            <= g2.nodes@[g2.edges@[k].to as int].bwd_depth + 1 by {
            assert(same_shape(g2.nodes@[g2.edges@[k].from as int], g1.nodes@[g2.edges@[k].from as int]));
            assert(same_shape(g2.nodes@[g2.edges@[k].to as int], g1.nodes@[g2.edges@[k].to as int]));
        }
    }
}

/// Clones an optional quantifier name.
pub(crate) fn clone_name(name: &Option<String>) -> (r: Option<String>)
    ensures
        r == name,
{
    match name {
        Some(s) => Some(s.clone()),
        None => None,
    }
}

impl NodeData {
    /// What `NodeData::new` returns, for use in contracts.
    pub open spec fn spec_fresh(
        kind: NodeKind,
        cost: u64,
        is_theory_inst: bool,
        quant: Option<QuantIdx>,
        quant_name: Option<String>,
    ) -> NodeData {
        NodeData {
            kind,
            cost,
            is_theory_inst,
            quant,
            quant_name,
            visible: true,
            disabled: false,
            child_count: 0,
            parent_count: 0,
            fwd_depth: 0,
            bwd_depth: 0,
            cost_rank: 0,
        }
    }
}

} // verus!
