//! The visible-graph materializer: a pure, disposable snapshot of the raw
//! graph's currently visible nodes. Direct edges whose endpoints are both
//! visible are copied; where a visible node reaches another only through
//! hidden intermediaries, exactly one synthesized indirect edge carries
//! the full raw-edge path, so causal influence survives hiding.
use vstd::prelude::*;

use crate::graph::{is_edge, Edge, EdgeKind, InstGraph, NodeData, NodeKind};
use crate::items::{ENodeIdx, EqGivenIdx};
use crate::reach::valid_path;

verus! {

/// Whether a visible edge is an original edge or a synthesized bridge.
#[derive(Clone, Copy, PartialEq, Eq, Structural, Debug)]
pub enum EdgeType {
    Direct,
    Indirect,
}

/// A visible edge's classification record, as a renderer consumes it.
#[derive(Clone, Copy, PartialEq, Eq, Structural, Debug)]
pub struct EdgeData {
    pub edge_type: EdgeType,
}

/// A node of the visible graph: its raw origin index and how many of its
/// direct raw neighbours are currently hidden.
#[derive(Clone, Copy, PartialEq, Eq, Structural, Debug)]
pub struct VisibleNode {
    pub idx: usize,
    pub hidden_parents: usize,
    pub hidden_children: usize,
}

/// A visible edge: either one raw edge, or the raw-edge path of a hidden
/// chain it bridges.
#[derive(Clone, PartialEq, Eq, Debug)]
pub enum VisibleEdge {
    Direct(usize),
    Indirect(Vec<usize>),
}

impl VisibleEdge {
    /// Whether this is a synthesized bridge over hidden nodes.
    pub fn is_indirect(&self) -> (r: bool)
        ensures
            r == (self is Indirect),
    {
        matches!(self, VisibleEdge::Indirect(_))
    }

    /// The Direct/Indirect tag as a renderer record.
    pub fn data(&self) -> (r: EdgeData)
        ensures
            r.edge_type == (if self is Indirect {
                EdgeType::Indirect
            } else {
                EdgeType::Direct
            }),
    {
        match self {
            VisibleEdge::Direct(_) => EdgeData { edge_type: EdgeType::Direct },
            VisibleEdge::Indirect(_) => EdgeData { edge_type: EdgeType::Indirect },
        }
    }
}

/// One edge of the visible graph, between visible-graph node positions.
#[derive(Clone, PartialEq, Eq, Debug)]
pub struct VisibleEdgeRecord {
    pub from: usize,
    pub to: usize,
    pub edge: VisibleEdge,
}

/// Number of visible nodes with raw index below `upto`; for a visible raw
/// node `i` this is also its position in the visible graph.
pub open spec fn vis_count(nodes: Seq<NodeData>, upto: int) -> nat
    decreases upto,
{
    if upto <= 0 {
        0
    } else {
        vis_count(nodes, upto - 1) + if nodes[upto - 1].visible {
            1nat
        } else {
            0nat
        }
    }
}

/// `vis_count` is monotone, strictly so across a visible node.
pub proof fn lemma_vis_count_mono(nodes: Seq<NodeData>, j: int, i: int)
    requires
        0 <= j < i <= nodes.len(),
    ensures
        vis_count(nodes, j) <= vis_count(nodes, i),
        nodes[j].visible ==> vis_count(nodes, j) < vis_count(nodes, i),
    decreases i,
{
    if j < i - 1 {
        lemma_vis_count_mono(nodes, j, i - 1);
    }
}

/// Number of hidden direct parents of `i` among the first `upto` edges.
pub open spec fn count_hidden_parents(
    nodes: Seq<NodeData>,
    edges: Seq<Edge>,
    i: int,
    upto: int,
) -> nat
    decreases upto,
{
    if upto <= 0 {
        0
    } else {
        count_hidden_parents(nodes, edges, i, upto - 1) + if edges[upto - 1].to == i
            && !nodes[edges[upto - 1].from as int].visible {
            1nat
        } else {
            0nat
        }
    }
}

/// Number of hidden direct children of `i` among the first `upto` edges.
pub open spec fn count_hidden_children(
    nodes: Seq<NodeData>,
    edges: Seq<Edge>,
    i: int,
    upto: int,
) -> nat
    decreases upto,
{
    if upto <= 0 {
        0
    } else {
        count_hidden_children(nodes, edges, i, upto - 1) + if edges[upto - 1].from == i
            && !nodes[edges[upto - 1].to as int].visible {
            1nat
        } else {
            0nat
        }
    }
}

/// The copied direct edges for the first `upto` raw edges: one record per
/// raw edge with both endpoints visible, in raw order.
pub open spec fn direct_edges(nodes: Seq<NodeData>, edges: Seq<Edge>, upto: int) -> Seq<
    VisibleEdgeRecord,
>
    decreases upto,
{
    if upto <= 0 {
        Seq::empty()
    } else {
        let r = direct_edges(nodes, edges, upto - 1);
        let e = edges[upto - 1];
        if nodes[e.from as int].visible && nodes[e.to as int].visible {
            r.push(
                VisibleEdgeRecord {
                    from: vis_count(nodes, e.from as int) as usize,
                    to: vis_count(nodes, e.to as int) as usize,
                    edge: VisibleEdge::Direct((upto - 1) as usize),
                },
            )
        } else {
            r
        }
    }
}

/// A hidden walk: a raw path of two or more nodes whose every node after
/// the first is hidden.
pub open spec fn hreach(nodes: Seq<NodeData>, edges: Seq<Edge>, a: int, h: int) -> bool {
    exists|p: Seq<int>|
        {
            &&& valid_path(nodes.len() as int, edges, p)
            &&& p.len() >= 2
            &&& p.first() == a
            &&& p.last() == h
            &&& forall|j: int| 1 <= j < p.len() ==> !nodes[#[trigger] p[j]].visible
        }
}

/// `a` causally influences `d` through hidden nodes only: some hidden
/// walk from `a` ends one raw edge before `d`.
pub open spec fn hidden_connected(nodes: Seq<NodeData>, edges: Seq<Edge>, a: int, d: int) -> bool {
    exists|h: int|
        0 <= h < nodes.len() && #[trigger] hreach(nodes, edges, a, h) && is_edge(edges, h, d)
}

/// The payload of an indirect edge: a chain of raw edge indices leading
/// from `a` to `d` whose intermediate nodes are all hidden.
pub open spec fn indirect_path_ok(
    nodes: Seq<NodeData>,
    edges: Seq<Edge>,
    path: Seq<usize>,
    a: int,
    d: int,
) -> bool {
    &&& path.len() >= 2
    &&& forall|j: int| 0 <= j < path.len() ==> (#[trigger] path[j]) < edges.len()
    &&& edges[path[0] as int].from == a
    &&& edges[path[path.len() - 1] as int].to == d
    &&& forall|j: int|
        0 <= j < path.len() - 1 ==> edges[(#[trigger] path[j]) as int].to == edges[path[j + 1] as int].from
    &&& forall|j: int|
        0 <= j < path.len() - 1 ==> !nodes[edges[(#[trigger] path[j]) as int].to as int].visible
}

/// The materialized snapshot of the currently visible subgraph. It is
/// derived and disposable: consumers treat it as read-only and use the
/// `generation` stamp for staleness detection.
#[derive(Debug)]
pub struct VisibleInstGraph {
    pub nodes: Vec<VisibleNode>,
    pub edges: Vec<VisibleEdgeRecord>,
    /// For every raw origin index, its position here (if visible).
    pub reverse: Vec<Option<usize>>,
    pub generation: u64,
}

impl VisibleInstGraph {
    /// Whether the raw node with the given origin index is in this
    /// snapshot.
    pub fn contains(&self, i_idx: usize) -> (r: bool)
        requires
            i_idx < self.reverse@.len(),
        ensures
            r == (self.reverse@[i_idx as int] is Some),
    {
        matches!(self.reverse[i_idx], Some(_))
    }

    /// Number of nodes in the snapshot.
    pub fn node_count(&self) -> (r: usize)
        ensures
            r == self.nodes@.len(),
    {
        self.nodes.len()
    }

    /// Number of edges (direct and indirect) in the snapshot.
    pub fn edge_count(&self) -> (r: usize)
        ensures
            r == self.edges@.len(),
    {
        self.edges.len()
    }
}

impl InstGraph {
    /// Builds the visible node list and the raw-to-visible index map.
    #[verifier::loop_isolation(false)]
    fn build_visible_nodes(&self) -> (r: (Vec<VisibleNode>, Vec<Option<usize>>))
        requires
            self.topo_wf(),
        ensures
            ({
                let (vnodes, reverse) = r;
                &&& vnodes@.len() == vis_count(self.nodes@, self.n())
                &&& reverse@.len() == self.n()
                &&& forall|i: int|
                    0 <= i < self.n() ==> #[trigger] reverse@[i] == (if self.nodes@[i].visible {
                        Some(vis_count(self.nodes@, i) as usize)
                    } else {
                        Option::<usize>::None
                    })
                &&& forall|i: int|
                    0 <= i < self.n() && self.nodes@[i].visible
                        ==> #[trigger] vnodes@[vis_count(self.nodes@, i) as int] == (VisibleNode {
                        idx: i as usize,
                        hidden_parents: count_hidden_parents(
                            self.nodes@,
                            self.edges@,
                            i,
                            self.m(),
                        ) as usize,
                        hidden_children: count_hidden_children(
                            self.nodes@,
                            self.edges@,
                            i,
                            self.m(),
                        ) as usize,
                    })
            }),
    {
        let n = self.nodes.len();
        let m = self.edges.len();
        let mut vnodes: Vec<VisibleNode> = Vec::new();
        let mut reverse: Vec<Option<usize>> = Vec::new();
        let mut i: usize = 0;
        while i < n
            invariant
                i <= n,
                reverse@.len() == i,
                vnodes@.len() == vis_count(self.nodes@, i as int),
                forall|j: int|
                    0 <= j < i ==> #[trigger] reverse@[j] == (if self.nodes@[j].visible {
                        Some(vis_count(self.nodes@, j) as usize)
                    } else {
                        Option::<usize>::None
                    }),
                forall|j: int|
                    0 <= j < i && self.nodes@[j].visible ==> vis_count(self.nodes@, j)
                        < vnodes@.len(),
                forall|j: int|
                    0 <= j < i && self.nodes@[j].visible
                        ==> #[trigger] vnodes@[vis_count(self.nodes@, j) as int] == (VisibleNode {
                        idx: j as usize,
                        hidden_parents: count_hidden_parents(
                            self.nodes@,
                            self.edges@,
                            j,
                            self.m(),
                        ) as usize,
                        hidden_children: count_hidden_children(
                            self.nodes@,
                            self.edges@,
                            j,
                            self.m(),
                        ) as usize,
                    }),
            decreases n - i,
        {
            if self.nodes[i].visible {
                let mut hp: usize = 0;
                let mut hc: usize = 0;
                let mut k: usize = 0;
                while k < m
                    invariant
                        k <= m,
                        hp <= k,
                        hc <= k,
                        hp == count_hidden_parents(self.nodes@, self.edges@, i as int, k as int),
                        hc == count_hidden_children(self.nodes@, self.edges@, i as int, k as int),
                    decreases m - k,
                {
                    let e = &self.edges[k];
                    if e.to == i && !self.nodes[e.from].visible {
                        hp = hp + 1;
                    }
                    if e.from == i && !self.nodes[e.to].visible {
                        hc = hc + 1;
                    }
                    k = k + 1;
                }
                reverse.push(Some(vnodes.len()));
                vnodes.push(VisibleNode { idx: i, hidden_parents: hp, hidden_children: hc });
                proof {
                    assert forall|j: int|
                        0 <= j <= i as int && self.nodes@[j].visible implies vis_count(
                        self.nodes@,
                        j,
                    ) < vis_count(self.nodes@, i + 1) by {
                        lemma_vis_count_mono(self.nodes@, j, i + 1);
                    }
                }
            } else {
                reverse.push(None);
            }
            i = i + 1;
        }
        (vnodes, reverse)
    }

    /// Copies every raw edge whose endpoints are both visible.
    #[verifier::loop_isolation(false)]
    fn build_direct_edges(&self, reverse: &Vec<Option<usize>>) -> (r: Vec<VisibleEdgeRecord>)
        requires
            self.topo_wf(),
            reverse@.len() == self.n(),
            forall|i: int|
                0 <= i < self.n() ==> #[trigger] reverse@[i] == (if self.nodes@[i].visible {
                    Some(vis_count(self.nodes@, i) as usize)
                } else {
                    Option::<usize>::None
                }),
        ensures
            r@ == direct_edges(self.nodes@, self.edges@, self.m()),
    {
        let m = self.edges.len();
        let mut r: Vec<VisibleEdgeRecord> = Vec::new();
        let mut k: usize = 0;
        while k < m
            invariant
                k <= m,
                r@ == direct_edges(self.nodes@, self.edges@, k as int),
            decreases m - k,
        {
            let e = &self.edges[k];
            if self.nodes[e.from].visible && self.nodes[e.to].visible {
                let vf = match reverse[e.from] {
                    Some(v) => v,
                    None => unreached(),
                };
                let vt = match reverse[e.to] {
                    Some(v) => v,
                    None => unreached(),
                };
                r.push(VisibleEdgeRecord { from: vf, to: vt, edge: VisibleEdge::Direct(k) });
            }
            k = k + 1;
        }
        r
    }
}

/// One hidden edge out of `a` is already a hidden walk.
proof fn lemma_hreach_edge(nodes: Seq<NodeData>, edges: Seq<Edge>, a: int, h: int)
    requires
        0 <= a < nodes.len(),
        0 <= h < nodes.len(),
        is_edge(edges, a, h),
        !nodes[h].visible,
    ensures
        hreach(nodes, edges, a, h),
{
    let p = seq![a, h];
    assert(valid_path(nodes.len() as int, edges, p)) by {
        assert(p[0] == a && p[1] == h);
    }
    assert forall|j: int| 1 <= j < p.len() implies !nodes[#[trigger] p[j]].visible by {
        assert(p[j] == h);
    }
    assert(p.len() >= 2 && p.first() == a && p.last() == h);
}

/// A hidden walk extends over a further edge to a hidden node.
proof fn lemma_hreach_extend(nodes: Seq<NodeData>, edges: Seq<Edge>, a: int, h1: int, h2: int)
    requires
        hreach(nodes, edges, a, h1),
        is_edge(edges, h1, h2),
        0 <= h2 < nodes.len(),
        !nodes[h2].visible,
    ensures
        hreach(nodes, edges, a, h2),
{
    let p = choose|p: Seq<int>|
        {
            &&& valid_path(nodes.len() as int, edges, p)
            &&& p.len() >= 2
            &&& p.first() == a
            &&& p.last() == h1
            &&& forall|j: int| 1 <= j < p.len() ==> !nodes[#[trigger] p[j]].visible
        };
    crate::reach::lemma_path_extend(nodes.len() as int, edges, p, h2);
    let q = p.push(h2);
    assert forall|j: int| 1 <= j < q.len() implies !nodes[#[trigger] q[j]].visible by {
        if j < p.len() {
            assert(q[j] == p[j]);
        } else {
            assert(q[j] == h2);
        }
    }
    assert(q.len() >= 2 && q.first() == a && q.last() == h2);
}

/// A hidden walk ends hidden, runs forward, and decomposes at its last
/// step.
proof fn lemma_hreach_step(nodes: Seq<NodeData>, edges: Seq<Edge>, a: int, h: int)
    requires
        crate::graph::edges_wf(nodes.len() as int, edges),
        hreach(nodes, edges, a, h),
    ensures
        a < h,
        !nodes[h].visible,
        is_edge(edges, a, h) || exists|h2: int|
            0 <= h2 < h && #[trigger] hreach(nodes, edges, a, h2) && is_edge(edges, h2, h),
{
    let n = nodes.len() as int;
    let p = choose|p: Seq<int>|
        {
            &&& valid_path(n, edges, p)
            &&& p.len() >= 2
            &&& p.first() == a
            &&& p.last() == h
            &&& forall|j: int| 1 <= j < p.len() ==> !nodes[#[trigger] p[j]].visible
        };
    crate::reach::lemma_path_monotone(n, edges, p);
    assert(!nodes[h].visible) by {
        assert(p[p.len() - 1] == h);
    }
    if p.len() == 2 {
        assert(is_edge(edges, p[0], p[1]));
    } else {
        crate::reach::lemma_path_shrink(n, edges, p);
        let q = p.drop_last();
        let h2 = p[p.len() - 2];
        assert forall|j: int| 1 <= j < q.len() implies !nodes[#[trigger] q[j]].visible by {
            assert(q[j] == p[j]);
        }
        assert(hreach(nodes, edges, a, h2)) by {
            assert(valid_path(n, edges, q) && q.len() >= 2 && q.first() == a && q.last() == h2);
        }
        assert(h2 < h);
        assert(0 <= h2 < h && hreach(nodes, edges, a, h2) && is_edge(edges, h2, h));
    }
}

/// The predecessor bookkeeping of a hidden closure: each marked node was
/// first reached over a recorded edge whose source is the origin or an
/// earlier marked node.
pub open spec fn preds_ok(
    nodes: Seq<NodeData>,
    edges: Seq<Edge>,
    a: int,
    marks: Seq<bool>,
    preds: Seq<usize>,
) -> bool {
    &&& marks.len() == nodes.len()
    &&& preds.len() == nodes.len()
    &&& forall|j: int|
        0 <= j < marks.len() && #[trigger] marks[j] ==> {
            &&& preds[j] < edges.len()
            &&& edges[preds[j] as int].to == j
            &&& (edges[preds[j] as int].from == a || marks[edges[preds[j] as int].from as int])
            &&& !nodes[j].visible
        }
}

impl InstGraph {
    /// Marks every node reachable from `a` through hidden nodes only, and
    /// records for each the edge it was first reached over.
    #[verifier::loop_isolation(false)]
    #[verifier::rlimit(30)]
    fn hidden_closure(&self, a: usize) -> (r: (Vec<bool>, Vec<usize>))
        requires
            self.topo_wf(),
            a < self.n(),
        ensures
            ({
                let (marks, preds) = r;
                &&& marks@.len() == self.n()
                &&& forall|j: int|
                    0 <= j < self.n() ==> marks@[j] == hreach(
                        self.nodes@,
                        self.edges@,
                        a as int,
                        j,
                    )
                &&& preds_ok(self.nodes@, self.edges@, a as int, marks@, preds@)
            }),
    {
        let n = self.nodes.len();
        let m = self.edges.len();
        let mut marks: Vec<bool> = Vec::new();
        let mut preds: Vec<usize> = Vec::new();
        let mut i: usize = 0;
        while i < n
            invariant
                i <= n,
                marks@.len() == i,
                preds@.len() == i,
                forall|j: int|
                    0 <= j < i ==> marks@[j] == hreach(self.nodes@, self.edges@, a as int, j),
                forall|j: int|
                    0 <= j < i && marks@[j] ==> {
                        &&& (#[trigger] preds@[j]) < self.m()
                        &&& self.edges@[preds@[j] as int].to == j
                        &&& (self.edges@[preds@[j] as int].from == a || marks@[self.edges@[preds@[j] as int].from as int])
                        &&& !self.nodes@[j].visible
                    },
            decreases n - i,
        {
            let hid = !self.nodes[i].visible;
            let mut hit = false;
            let mut pe: usize = 0;
            if hid {
                let mut k: usize = 0;
                while k < m
                    invariant
                        k <= m,
                        !self.nodes@[i as int].visible,
                        hit ==> pe < m && self.edges@[pe as int].to == i && (self.edges@[pe as int].from
                            == a || marks@[self.edges@[pe as int].from as int]) && hreach(
                            self.nodes@,
                            self.edges@,
                            a as int,
                            i as int,
                        ),
                        !hit ==> forall|k2: int|
                            0 <= k2 < k ==> !((#[trigger] self.edges@[k2]).to == i
                                && (self.edges@[k2].from == a || marks@[self.edges@[k2].from as int])),
                    decreases m - k,
                {
                    if !hit && self.edges[k].to == i {
                        let f = self.edges[k].from;
                        let from_origin = f == a;
                        let from_marked = marks[f];
                        if from_origin || from_marked {
                            hit = true;
                            pe = k;
                            proof {
                                assert(is_edge(self.edges@, f as int, i as int));
                                if from_origin {
                                    lemma_hreach_edge(
                                        self.nodes@,
                                        self.edges@,
                                        a as int,
                                        i as int,
                                    );
                                } else {
                                    lemma_hreach_extend(
                                        self.nodes@,
                                        self.edges@,
                                        a as int,
                                        f as int,
                                        i as int,
                                    );
                                }
                            }
                        }
                    }
                    k = k + 1;
                }
            }
            proof {
                if !hit {
                    if hreach(self.nodes@, self.edges@, a as int, i as int) {
                        lemma_hreach_step(self.nodes@, self.edges@, a as int, i as int);
                        if is_edge(self.edges@, a as int, i as int) {
                            let k2 = choose|k2: int|
                                0 <= k2 < self.edges@.len() && (#[trigger] self.edges@[k2]).from
                                    == a && self.edges@[k2].to == i;
                            assert(false);
                        } else {
                            let h2 = choose|h2: int|
                                0 <= h2 < i && #[trigger] hreach(
                                    self.nodes@,
                                    self.edges@,
                                    a as int,
                                    h2,
                                ) && is_edge(self.edges@, h2, i as int);
                            let k2 = choose|k2: int|
                                0 <= k2 < self.edges@.len() && (#[trigger] self.edges@[k2]).from
                                    == h2 && self.edges@[k2].to == i;
                            assert(marks@[h2]);
                            assert(false);
                        }
                    }
                }
            }
            marks.push(hit);
            preds.push(pe);
            i = i + 1;
        }
        (marks, preds)
    }

    /// Reconstructs the raw-edge chain by which a marked node was
    /// reached, extended by one final edge to a visible child.
    #[verifier::rlimit(100)]
    fn build_hidden_path(
        &self,
        a: usize,
        h: usize,
        marks: &Vec<bool>,
        preds: &Vec<usize>,
        k_hd: usize,
    ) -> (r: Vec<usize>)
        requires
            self.topo_wf(),
            a < self.n(),
            h < self.n(),
            marks@.len() == self.n(),
            preds_ok(self.nodes@, self.edges@, a as int, marks@, preds@),
            marks@[h as int],
            k_hd < self.m(),
            self.edges@[k_hd as int].from == h,
        ensures
            indirect_path_ok(
                self.nodes@,
                self.edges@,
                r@,
                a as int,
                self.edges@[k_hd as int].to as int,
            ),
    {
        let mut stack: Vec<usize> = Vec::new();
        let mut cur: usize = h;
        loop
            invariant_except_break
                stack@.len() >= 1 ==> self.edges@[stack@[stack@.len() - 1] as int].from == cur,
            invariant
                self.topo_wf(),
                a < self.n(),
                h < self.n(),
                marks@.len() == self.n(),
                preds@.len() == self.n(),
                preds_ok(self.nodes@, self.edges@, a as int, marks@, preds@),
                cur < self.n(),
                marks@[cur as int],
                stack@.len() == 0 ==> cur == h,
                stack@.len() >= 1 ==> self.edges@[stack@[0] as int].to == h,
                forall|j: int| 0 <= j < stack@.len() ==> (#[trigger] stack@[j]) < self.m(),
                forall|j: int|
                    1 <= j < stack@.len() ==> self.edges@[(#[trigger] stack@[j]) as int].to
                        == self.edges@[stack@[j - 1] as int].from,
                forall|j: int|
                    0 <= j < stack@.len() ==> marks@[self.edges@[(#[trigger] stack@[j]) as int].to as int],
            ensures
                stack@.len() >= 1,
                self.edges@[stack@[0] as int].to == h,
                self.edges@[stack@[stack@.len() - 1] as int].from == a,
                forall|j: int| 0 <= j < stack@.len() ==> (#[trigger] stack@[j]) < self.m(),
                forall|j: int|
                    1 <= j < stack@.len() ==> self.edges@[(#[trigger] stack@[j]) as int].to
                        == self.edges@[stack@[j - 1] as int].from,
                forall|j: int|
                    0 <= j < stack@.len() ==> marks@[self.edges@[(#[trigger] stack@[j]) as int].to as int],
            decreases cur,
        {
            let pe = preds[cur];
            stack.push(pe);
            let f = self.edges[pe].from;
            if f == a {
                break ;
            }
            cur = f;
        }
        let mut path: Vec<usize> = Vec::new();
        let mut idx: usize = stack.len();
        while idx > 0
            invariant
                idx <= stack@.len(),
                path@.len() == stack@.len() - idx,
                forall|j: int|
                    0 <= j < path@.len() ==> #[trigger] path@[j] == stack@[stack@.len() - 1 - j],
            decreases idx,
        {
            idx = idx - 1;
            path.push(stack[idx]);
        }
        path.push(k_hd);
        proof {
            let p = path@;
            let sl = stack@.len() as int;
            assert(p.len() == sl + 1);
            assert(self.edges@[p[0] as int].from == a);
            assert(self.edges@[p[p.len() - 1] as int].to == self.edges@[k_hd as int].to);
            assert forall|j: int|
                0 <= j < p.len() - 1 implies self.edges@[(#[trigger] p[j]) as int].to
                == self.edges@[p[j + 1] as int].from by {
                if j + 1 < sl {
                    assert(p[j] == stack@[sl - 1 - j] && p[j + 1] == stack@[sl - 2 - j]);
                } else {
                    assert(p[j] == stack@[0]);
                    assert(self.edges@[stack@[0] as int].to == h);
                }
            }
            assert forall|j: int|
                0 <= j < p.len() - 1 implies !self.nodes@[self.edges@[(#[trigger] p[j]) as int].to as int].visible by {
                assert(p[j] == stack@[sl - 1 - j]);
                assert(marks@[self.edges@[p[j] as int].to as int]);
            }
        }
        path
    }
}

/// `vis_count` positions are distinct for distinct visible nodes.
proof fn lemma_vis_count_inj(nodes: Seq<NodeData>, a: int, b: int)
    requires
        0 <= a < b < nodes.len(),
        nodes[a].visible,
    ensures
        vis_count(nodes, a) < vis_count(nodes, b),
{
    lemma_vis_count_mono(nodes, a, b);
}

/// There are never more visible nodes below `i` than nodes.
proof fn lemma_vis_count_bound(nodes: Seq<NodeData>, i: int)
    requires
        0 <= i <= nodes.len(),
    ensures
        vis_count(nodes, i) <= i,
    decreases i,
{
    if i > 0 {
        lemma_vis_count_bound(nodes, i - 1);
    }
}

/// A record of the reconnection pass: an indirect bridge between two
/// visible raw nodes that are connected through hidden nodes only, with
/// the witnessing raw-edge chain as payload.
pub open spec fn indirect_rec_ok(
    nodes: Seq<NodeData>,
    edges: Seq<Edge>,
    r: VisibleEdgeRecord,
) -> bool {
    exists|a: int, d: int|
        {
            &&& 0 <= a < nodes.len()
            &&& 0 <= d < nodes.len()
            &&& (#[trigger] vis_count(nodes, a)) == r.from
            &&& (#[trigger] vis_count(nodes, d)) == r.to
            &&& nodes[a].visible
            &&& nodes[d].visible
            &&& hidden_connected(nodes, edges, a, d)
            &&& match r.edge {
                VisibleEdge::Indirect(p) => indirect_path_ok(nodes, edges, p@, a, d),
                VisibleEdge::Direct(_) => false,
            }
        }
}

/// The discovery progress of the reconnection scan for one origin `a`:
/// whether target `d` was found over some edge out of a marked node that
/// the scan has already passed.
pub open spec fn seen_spec(
    nodes: Seq<NodeData>,
    edges: Seq<Edge>,
    marks: Seq<bool>,
    h: int,
    k: int,
    d: int,
) -> bool {
    exists|k2: int|
        {
            &&& 0 <= k2 < edges.len()
            &&& marks[(#[trigger] edges[k2]).from as int]
            &&& edges[k2].to == d
            &&& nodes[d].visible
            &&& (edges[k2].from < h || (edges[k2].from == h && k2 < k))
        }
}

impl InstGraph {
    /// One origin of the reconnection pass: finds every visible node that
    /// `a` reaches through hidden nodes only and appends exactly one
    /// indirect edge per such target.
    #[verifier::loop_isolation(false)]
    #[verifier::rlimit(100)]
    fn reconnect_from(&self, a: usize, reverse: &Vec<Option<usize>>, out: &mut Vec<VisibleEdgeRecord>)
        requires
            self.topo_wf(),
            a < self.n(),
            self.nodes@[a as int].visible,
            reverse@.len() == self.n(),
            forall|i: int|
                0 <= i < self.n() ==> #[trigger] reverse@[i] == (if self.nodes@[i].visible {
                    Some(vis_count(self.nodes@, i) as usize)
                } else {
                    Option::<usize>::None
                }),
        ensures
            final(out)@.len() >= old(out)@.len(),
            forall|j: int| 0 <= j < old(out)@.len() ==> final(out)@[j] == old(out)@[j],
            forall|j: int|
                old(out)@.len() <= j < final(out)@.len() ==> indirect_rec_ok(
                    self.nodes@,
                    self.edges@,
                    #[trigger] final(out)@[j],
                ) && final(out)@[j].from == vis_count(self.nodes@, a as int),
            forall|j1: int, j2: int|
                old(out)@.len() <= j1 < j2 < final(out)@.len() ==> final(out)@[j1].to != final(out)@[j2].to,
            forall|d: int|
                0 <= d < self.n() && self.nodes@[d].visible && hidden_connected(
                    self.nodes@,
                    self.edges@,
                    a as int,
                    d,
                ) ==> exists|j: int|
                    old(out)@.len() <= j < final(out)@.len() && (#[trigger] final(out)@[j]).to
                        == vis_count(self.nodes@, d),
    {
        let n = self.nodes.len();
        let m = self.edges.len();
        let (marks, preds) = self.hidden_closure(a);
        let mut seen: Vec<bool> = Vec::new();
        let mut z: usize = 0;
        while z < n
            invariant
                z <= n,
                seen@.len() == z,
                forall|d: int| 0 <= d < z ==> !seen@[d],
            decreases n - z,
        {
            seen.push(false);
            z = z + 1;
        }
        let ghost start = out@.len() as int;
        let mut h: usize = 0;
        while h < n
            invariant
                h <= n,
                marks@.len() == self.n(),
                preds@.len() == self.n(),
                forall|j2: int|
                    0 <= j2 < self.n() ==> marks@[j2] == hreach(
                        self.nodes@,
                        self.edges@,
                        a as int,
                        j2,
                    ),
                preds_ok(self.nodes@, self.edges@, a as int, marks@, preds@),
                seen@.len() == n,
                0 <= start <= out@.len(),
                start == old(out)@.len(),
                forall|j: int| 0 <= j < start ==> out@[j] == old(out)@[j],
                forall|j: int|
                    start <= j < out@.len() ==> indirect_rec_ok(
                        self.nodes@,
                        self.edges@,
                        #[trigger] out@[j],
                    ) && out@[j].from == vis_count(self.nodes@, a as int),
                forall|j1: int, j2: int|
                    start <= j1 < j2 < out@.len() ==> out@[j1].to != out@[j2].to,
                forall|d: int|
                    0 <= d < n ==> seen@[d] == seen_spec(
                        self.nodes@,
                        self.edges@,
                        marks@,
                        h as int,
                        0,
                        d,
                    ),
                forall|d: int|
                    0 <= d < n && seen@[d] ==> self.nodes@[d].visible && exists|j: int|
                        start <= j < out@.len() && (#[trigger] out@[j]).to == vis_count(
                            self.nodes@,
                            d,
                        ),
                forall|j: int, d2: int|
                    start <= j < out@.len() && 0 <= d2 < n && self.nodes@[d2].visible
                        && !seen@[d2] ==> (#[trigger] out@[j]).to != #[trigger] vis_count(
                        self.nodes@,
                        d2,
                    ),
            decreases n - h,
        {
            if marks[h] {
                self.reconnect_scan(a, h, &marks, &preds, reverse, &mut seen, out, Ghost(start));
            } else {
                proof {
                    assert forall|d: int|
                        0 <= d < n implies seen_spec(
                        self.nodes@,
                        self.edges@,
                        marks@,
                        h as int,
                        0,
                        d,
                    ) == seen_spec(self.nodes@, self.edges@, marks@, h + 1, 0, d) by {}
                }
            }
            h = h + 1;
        }
        proof {
            assert forall|d: int|
                0 <= d < self.n() && self.nodes@[d].visible && hidden_connected(
                self.nodes@,
                self.edges@,
                a as int,
                d,
            ) implies exists|j: int|
                start <= j < out@.len() && (#[trigger] out@[j]).to == vis_count(
                    self.nodes@,
                    d,
                ) by {
                let hx = choose|hx: int|
                    0 <= hx < self.nodes@.len() && #[trigger] hreach(
                        self.nodes@,
                        self.edges@,
                        a as int,
                        hx,
                    ) && is_edge(self.edges@, hx, d);
                let k2 = choose|k2: int|
                    0 <= k2 < self.edges@.len() && (#[trigger] self.edges@[k2]).from == hx
                        && self.edges@[k2].to == d;
                assert(marks@[hx]);
                assert(seen_spec(self.nodes@, self.edges@, marks@, n as int, 0, d)) by {
                    assert(0 <= k2 < self.edges@.len() && marks@[self.edges@[k2].from as int]
                        && self.edges@[k2].to == d && self.nodes@[d].visible
                        && self.edges@[k2].from < n);
                }
                assert(seen@[d]);
            }
        }
    }

    /// The edge scan of one marked hidden node `h`: every visible child
    /// not yet recorded for this origin gains its indirect edge.
    #[verifier::loop_isolation(false)]
    #[verifier::rlimit(100)]
    fn reconnect_scan(
        &self,
        a: usize,
        h: usize,
        marks: &Vec<bool>,
        preds: &Vec<usize>,
        reverse: &Vec<Option<usize>>,
        seen: &mut Vec<bool>,
        out: &mut Vec<VisibleEdgeRecord>,
        start: Ghost<int>,
    )
        requires
            self.topo_wf(),
            a < self.n(),
            h < self.n(),
            self.nodes@[a as int].visible,
            marks@.len() == self.n(),
            preds@.len() == self.n(),
            forall|j2: int|
                0 <= j2 < self.n() ==> marks@[j2] == hreach(
                    self.nodes@,
                    self.edges@,
                    a as int,
                    j2,
                ),
            preds_ok(self.nodes@, self.edges@, a as int, marks@, preds@),
            marks@[h as int],
            reverse@.len() == self.n(),
            forall|i: int|
                0 <= i < self.n() ==> #[trigger] reverse@[i] == (if self.nodes@[i].visible {
                    Some(vis_count(self.nodes@, i) as usize)
                } else {
                    Option::<usize>::None
                }),
            old(seen)@.len() == self.n(),
            0 <= start@ <= old(out)@.len(),
            forall|j: int|
                start@ <= j < old(out)@.len() ==> indirect_rec_ok(
                    self.nodes@,
                    self.edges@,
                    #[trigger] old(out)@[j],
                ) && old(out)@[j].from == vis_count(self.nodes@, a as int),
            forall|j1: int, j2: int|
                start@ <= j1 < j2 < old(out)@.len() ==> old(out)@[j1].to != old(out)@[j2].to,
            forall|d: int|
                0 <= d < self.n() ==> old(seen)@[d] == seen_spec(
                    self.nodes@,
                    self.edges@,
                    marks@,
                    h as int,
                    0,
                    d,
                ),
            forall|d: int|
                0 <= d < self.n() && old(seen)@[d] ==> self.nodes@[d].visible && exists|j: int|
                    start@ <= j < old(out)@.len() && (#[trigger] old(out)@[j]).to == vis_count(
                        self.nodes@,
                        d,
                    ),
            forall|j: int, d2: int|
                start@ <= j < old(out)@.len() && 0 <= d2 < self.n() && self.nodes@[d2].visible
                    && !old(seen)@[d2] ==> (#[trigger] old(out)@[j]).to != #[trigger] vis_count(
                    self.nodes@,
                    d2,
                ),
        ensures
            final(seen)@.len() == self.n(),
            final(out)@.len() >= old(out)@.len(),
            forall|j: int| 0 <= j < old(out)@.len() ==> final(out)@[j] == old(out)@[j],
            forall|j: int|
                start@ <= j < final(out)@.len() ==> indirect_rec_ok(
                    self.nodes@,
                    self.edges@,
                    #[trigger] final(out)@[j],
                ) && final(out)@[j].from == vis_count(self.nodes@, a as int),
            forall|j1: int, j2: int|
                start@ <= j1 < j2 < final(out)@.len() ==> final(out)@[j1].to != final(out)@[j2].to,
            forall|d: int|
                0 <= d < self.n() ==> final(seen)@[d] == seen_spec(
                    self.nodes@,
                    self.edges@,
                    marks@,
                    h + 1,
                    0,
                    d,
                ),
            forall|d: int|
                0 <= d < self.n() && final(seen)@[d] ==> self.nodes@[d].visible && exists|j: int|
                    start@ <= j < final(out)@.len() && (#[trigger] final(out)@[j]).to == vis_count(
                        self.nodes@,
                        d,
                    ),
            forall|j: int, d2: int|
                start@ <= j < final(out)@.len() && 0 <= d2 < self.n() && self.nodes@[d2].visible
                    && !final(seen)@[d2] ==> (#[trigger] final(out)@[j]).to
                    != #[trigger] vis_count(self.nodes@, d2),
    {
        let n = self.nodes.len();
        let m = self.edges.len();
        let mut k: usize = 0;
        while k < m
            invariant
                k <= m,
                seen@.len() == n,
                0 <= start@ <= out@.len(),
                out@.len() >= old(out)@.len(),
                forall|j: int| 0 <= j < old(out)@.len() ==> out@[j] == old(out)@[j],
                forall|j: int|
                    start@ <= j < out@.len() ==> indirect_rec_ok(
                        self.nodes@,
                        self.edges@,
                        #[trigger] out@[j],
                    ) && out@[j].from == vis_count(self.nodes@, a as int),
                forall|j1: int, j2: int|
                    start@ <= j1 < j2 < out@.len() ==> out@[j1].to != out@[j2].to,
                forall|d: int|
                    0 <= d < n && #[trigger] seen@[d] ==> seen_spec(
                        self.nodes@,
                        self.edges@,
                        marks@,
                        h + 1,
                        0,
                        d,
                    ),
                forall|d: int|
                    0 <= d < n && seen_spec(self.nodes@, self.edges@, marks@, h as int, 0, d)
                        ==> #[trigger] seen@[d],
                forall|k2: int|
                    0 <= k2 < k && (#[trigger] self.edges@[k2]).from == h
                        && self.nodes@[self.edges@[k2].to as int].visible ==> seen@[self.edges@[k2].to as int],
                forall|d: int|
                    0 <= d < n && #[trigger] seen@[d] ==> self.nodes@[d].visible && exists|j: int|
                        start@ <= j < out@.len() && (#[trigger] out@[j]).to == vis_count(
                            self.nodes@,
                            d,
                        ),
                forall|j: int, d2: int|
                    start@ <= j < out@.len() && 0 <= d2 < n && self.nodes@[d2].visible
                        && !seen@[d2] ==> (#[trigger] out@[j]).to != #[trigger] vis_count(
                        self.nodes@,
                        d2,
                    ),
            decreases m - k,
        {
            if self.edges[k].from == h {
                let d = self.edges[k].to;
                if self.nodes[d].visible && !seen[d] {
                    seen.set(d, true);
                    let path = self.build_hidden_path(a, h, marks, preds, k);
                    let vf = match reverse[a] {
                        Some(v) => v,
                        None => unreached(),
                    };
                    let vt = match reverse[d] {
                        Some(v) => v,
                        None => unreached(),
                    };
                    let rec = VisibleEdgeRecord { from: vf, to: vt, edge: VisibleEdge::Indirect(path) };
                    proof {
                        lemma_vis_count_bound(self.nodes@, a as int);
                        lemma_vis_count_bound(self.nodes@, d as int);
                        assert(vf == vis_count(self.nodes@, a as int) && vt == vis_count(
                            self.nodes@,
                            d as int,
                        ));
                        assert(is_edge(self.edges@, h as int, d as int));
                        assert(hidden_connected(self.nodes@, self.edges@, a as int, d as int)) by {
                            assert(hreach(self.nodes@, self.edges@, a as int, h as int));
                        }
                        assert(indirect_rec_ok(self.nodes@, self.edges@, rec)) by {
                            assert(vis_count(self.nodes@, a as int) == rec.from && vis_count(
                                self.nodes@,
                                d as int,
                            ) == rec.to);
                        }
                        assert(seen_spec(self.nodes@, self.edges@, marks@, h + 1, 0, d as int)) by {
                            assert(0 <= k < self.edges@.len()
                                && marks@[self.edges@[k as int].from as int]
                                && self.edges@[k as int].to == d && self.nodes@[d as int].visible);
                        }
                        assert forall|d2: int|
                            0 <= d2 < n && self.nodes@[d2].visible && d2 != d as int implies vis_count(
                            self.nodes@,
                            d2,
                        ) != vis_count(self.nodes@, d as int) by {
                            if d2 < d as int {
                                lemma_vis_count_inj(self.nodes@, d2, d as int);
                            } else {
                                lemma_vis_count_inj(self.nodes@, d as int, d2);
                            }
                        }
                    }
                    let ghost out_pre = out@;
                    out.push(rec);
                    proof {
                        let newj = out@.len() - 1;
                        assert(out@[newj].to == vis_count(self.nodes@, d as int));
                        assert forall|d2: int|
                            0 <= d2 < n && #[trigger] seen@[d2] implies self.nodes@[d2].visible
                            && exists|j: int|
                            start@ <= j < out@.len() && (#[trigger] out@[j]).to == vis_count(
                                self.nodes@,
                                d2,
                            ) by {
                            if d2 == d as int {
                                assert(start@ <= newj < out@.len() && out@[newj].to == vis_count(
                                    self.nodes@,
                                    d2,
                                ));
                            } else {
                                let j0 = choose|j: int|
                                    start@ <= j < out_pre.len() && (#[trigger] out_pre[j]).to
                                        == vis_count(self.nodes@, d2);
                                assert(out@[j0] == out_pre[j0]);
                                assert(start@ <= j0 < out@.len() && out@[j0].to == vis_count(
                                    self.nodes@,
                                    d2,
                                ));
                            }
                        }
                    }
                }
            }
            k = k + 1;
        }
        proof {
            assert forall|d: int|
                0 <= d < self.n() implies seen@[d] == seen_spec(
                self.nodes@,
                self.edges@,
                marks@,
                h + 1,
                0,
                d,
            ) by {
                if !seen@[d] && seen_spec(self.nodes@, self.edges@, marks@, h + 1, 0, d) {
                    let k2 = choose|k2: int|
                        {
                            &&& 0 <= k2 < self.edges@.len()
                            &&& marks@[(#[trigger] self.edges@[k2]).from as int]
                            &&& self.edges@[k2].to == d
                            &&& self.nodes@[d].visible
                            &&& (self.edges@[k2].from < h + 1 || (self.edges@[k2].from == h + 1
                                && k2 < 0))
                        };
                    if self.edges@[k2].from < h {
                        assert(seen_spec(self.nodes@, self.edges@, marks@, h as int, 0, d)) by {
                            assert(0 <= k2 < self.edges@.len()
                                && marks@[self.edges@[k2].from as int] && self.edges@[k2].to == d
                                && self.nodes@[d].visible && self.edges@[k2].from < h);
                        }
                    } else {
                        assert(self.edges@[k2].from == h);
                        assert(seen@[self.edges@[k2].to as int]);
                    }
                    assert(false);
                }
            }
        }
    }

    /// The reconnection pass: for every ordered pair of visible nodes
    /// linked through hidden nodes only, appends exactly one indirect
    /// edge carrying a witnessing raw-edge chain.
    #[verifier::loop_isolation(false)]
    #[verifier::rlimit(60)]
    fn reconnect(&self, reverse: &Vec<Option<usize>>) -> (out: Vec<VisibleEdgeRecord>)
        requires
            self.topo_wf(),
            reverse@.len() == self.n(),
            forall|i: int|
                0 <= i < self.n() ==> #[trigger] reverse@[i] == (if self.nodes@[i].visible {
                    Some(vis_count(self.nodes@, i) as usize)
                } else {
                    Option::<usize>::None
                }),
        ensures
            forall|j: int|
                0 <= j < out@.len() ==> indirect_rec_ok(self.nodes@, self.edges@, #[trigger] out@[j]),
            forall|j1: int, j2: int|
                0 <= j1 < j2 < out@.len() ==> !(out@[j1].from == out@[j2].from && out@[j1].to
                    == out@[j2].to),
            forall|a: int, d: int|
                0 <= a < self.n() && 0 <= d < self.n() && self.nodes@[a].visible
                    && self.nodes@[d].visible && hidden_connected(self.nodes@, self.edges@, a, d)
                    ==> exists|j: int|
                    0 <= j < out@.len() && (#[trigger] out@[j]).from == vis_count(
                        self.nodes@,
                        a,
                    ) && out@[j].to == vis_count(self.nodes@, d),
    {
        let n = self.nodes.len();
        let mut out: Vec<VisibleEdgeRecord> = Vec::new();
        let mut a: usize = 0;
        while a < n
            invariant
                a <= n,
                forall|j: int|
                    0 <= j < out@.len() ==> indirect_rec_ok(
                        self.nodes@,
                        self.edges@,
                        #[trigger] out@[j],
                    ),
                forall|j1: int, j2: int|
                    0 <= j1 < j2 < out@.len() ==> !(out@[j1].from == out@[j2].from && out@[j1].to
                        == out@[j2].to),
                forall|j: int|
                    0 <= j < out@.len() ==> (#[trigger] out@[j]).from < vis_count(
                        self.nodes@,
                        a as int,
                    ),
                forall|a2: int, d: int|
                    0 <= a2 < a && 0 <= d < self.n() && self.nodes@[a2].visible
                        && self.nodes@[d].visible && hidden_connected(
                        self.nodes@,
                        self.edges@,
                        a2,
                        d,
                    ) ==> exists|j: int|
                        0 <= j < out@.len() && (#[trigger] out@[j]).from == vis_count(
                            self.nodes@,
                            a2,
                        ) && out@[j].to == vis_count(self.nodes@, d),
            decreases n - a,
        {
            let ghost out_pre = out@;
            if self.nodes[a].visible {
                self.reconnect_from(a, reverse, &mut out);
                proof {
                    assert forall|j1: int, j2: int|
                        0 <= j1 < j2 < out@.len() implies !(out@[j1].from == out@[j2].from
                        && out@[j1].to == out@[j2].to) by {
                        if j1 < out_pre.len() && j2 >= out_pre.len() {
                            assert(out@[j1].from < vis_count(self.nodes@, a as int));
                            assert(out@[j2].from == vis_count(self.nodes@, a as int));
                        }
                    }
                    assert forall|j: int|
                        0 <= j < out@.len() implies (#[trigger] out@[j]).from < vis_count(
                        self.nodes@,
                        a + 1,
                    ) by {
                        lemma_vis_count_mono(self.nodes@, a as int, a + 1);
                    }
                    assert forall|a2: int, d: int|
                        0 <= a2 < a + 1 && 0 <= d < self.n() && self.nodes@[a2].visible
                            && self.nodes@[d].visible && hidden_connected(
                            self.nodes@,
                            self.edges@,
                            a2,
                            d,
                        ) implies exists|j: int|
                            0 <= j < out@.len() && (#[trigger] out@[j]).from == vis_count(
                                self.nodes@,
                                a2,
                            ) && out@[j].to == vis_count(self.nodes@, d) by {
                        if a2 < a as int {
                            let j = choose|j: int|
                                0 <= j < out_pre.len() && (#[trigger] out_pre[j]).from == vis_count(
                                    self.nodes@,
                                    a2,
                                ) && out_pre[j].to == vis_count(self.nodes@, d);
                            assert(out@[j] == out_pre[j]);
                        } else {
                            let j = choose|j: int|
                                out_pre.len() <= j < out@.len() && (#[trigger] out@[j]).to
                                    == vis_count(self.nodes@, d);
                            assert(out@[j].from == vis_count(self.nodes@, a as int));
                        }
                    }
                }
            } else {
                proof {
                    lemma_vis_count_mono(self.nodes@, a as int, a + 1);
                }
            }
            a = a + 1;
        }
        out
    }
}

/// Everything `to_visible` promises of a snapshot `vg` taken from raw
/// graph `g`: the visible nodes in origin order with their hidden
/// neighbour counts, the reverse index map, every direct edge between
/// visible endpoints, and exactly one indirect edge per ordered pair of
/// visible nodes connected through hidden nodes only.
pub open spec fn snapshot_ok(g: InstGraph, vg: VisibleInstGraph) -> bool {
    let dlen = direct_edges(g.nodes@, g.edges@, g.m()).len() as int;
    &&& vg.generation == g.generation
    &&& vg.nodes@.len() == vis_count(g.nodes@, g.n())
    &&& forall|i: int|
        0 <= i < g.n() && g.nodes@[i].visible ==> #[trigger] vg.nodes@[vis_count(
            g.nodes@,
            i,
        ) as int] == (VisibleNode {
            idx: i as usize,
            hidden_parents: count_hidden_parents(g.nodes@, g.edges@, i, g.m()) as usize,
            hidden_children: count_hidden_children(g.nodes@, g.edges@, i, g.m()) as usize,
        })
    &&& vg.reverse@.len() == g.n()
    &&& forall|i: int|
        0 <= i < g.n() ==> #[trigger] vg.reverse@[i] == (if g.nodes@[i].visible {
            Some(vis_count(g.nodes@, i) as usize)
        } else {
            Option::<usize>::None
        })
    &&& vg.edges@.len() >= dlen
    &&& vg.edges@.subrange(0, dlen) == direct_edges(g.nodes@, g.edges@, g.m())
    &&& forall|j: int|
        dlen <= j < vg.edges@.len() ==> indirect_rec_ok(g.nodes@, g.edges@, #[trigger] vg.edges@[j])
    &&& forall|j1: int, j2: int|
        dlen <= j1 < j2 < vg.edges@.len() ==> !(vg.edges@[j1].from == vg.edges@[j2].from
            && vg.edges@[j1].to == vg.edges@[j2].to)
    &&& forall|a: int, d: int|
        0 <= a < g.n() && 0 <= d < g.n() && g.nodes@[a].visible && g.nodes@[d].visible
            && hidden_connected(g.nodes@, g.edges@, a, d) ==> exists|j: int|
            dlen <= j < vg.edges@.len() && (#[trigger] vg.edges@[j]).from == vis_count(
                g.nodes@,
                a,
            ) && vg.edges@[j].to == vis_count(g.nodes@, d)
}

impl InstGraph {
    /// Materializes the visible graph: a pure function of the raw graph's
    /// topology and current visibility flags. The raw graph is not
    /// touched; calling this twice without intervening mutation yields
    /// equal snapshots.
    #[verifier::rlimit(30)]
    pub fn to_visible(&self) -> (vg: VisibleInstGraph)
        requires
            self.topo_wf(),
        ensures
            snapshot_ok(*self, vg),
    {
        let (vnodes, reverse) = self.build_visible_nodes();
        let mut edges = self.build_direct_edges(&reverse);
        let ghost dlen = edges@.len() as int;
        let mut ind = self.reconnect(&reverse);
        let ghost ind0 = ind@;
        edges.append(&mut ind);
        proof {
            assert(edges@.subrange(0, dlen) =~= direct_edges(self.nodes@, self.edges@, self.m()));
            assert forall|j: int|
                dlen <= j < edges@.len() implies indirect_rec_ok(
                self.nodes@,
                self.edges@,
                #[trigger] edges@[j],
            ) by {
                assert(edges@[j] == ind0[j - dlen]);
            }
            assert forall|j1: int, j2: int|
                dlen <= j1 < j2 < edges@.len() implies !(edges@[j1].from == edges@[j2].from
                && edges@[j1].to == edges@[j2].to) by {
                assert(edges@[j1] == ind0[j1 - dlen] && edges@[j2] == ind0[j2 - dlen]);
            }
            assert forall|a: int, d: int|
                0 <= a < self.n() && 0 <= d < self.n() && self.nodes@[a].visible
                    && self.nodes@[d].visible && hidden_connected(
                    self.nodes@,
                    self.edges@,
                    a,
                    d,
                ) implies exists|j: int|
                    dlen <= j < edges@.len() && (#[trigger] edges@[j]).from == vis_count(
                        self.nodes@,
                        a,
                    ) && edges@[j].to == vis_count(self.nodes@, d) by {
                let j0 = choose|j0: int|
                    0 <= j0 < ind0.len() && (#[trigger] ind0[j0]).from == vis_count(
                        self.nodes@,
                        a,
                    ) && ind0[j0].to == vis_count(self.nodes@, d);
                assert(edges@[dlen + j0] == ind0[j0]);
            }
        }
        VisibleInstGraph { nodes: vnodes, edges, reverse, generation: self.generation }
    }
}

/// The classified shape of a visible edge, as the front-end explains it:
/// which blame or equality pattern the underlying raw-edge chain forms.
#[derive(Clone, PartialEq, Eq, Debug)]
pub enum VisibleEdgeKind {
    /// A plain raw edge.
    Direct(usize, EdgeKind),
    /// Instantiation -> e-node -> instantiation.
    YieldBlame { enode: ENodeIdx, trigger_term: u16 },
    /// Instantiation -> e-node -> given equality -> transitive equality.
    YieldEq(EqGivenIdx),
    /// Instantiation -> e-node -> given equality -> transitive equality
    /// (with a single parent) -> instantiation.
    YieldBlameEq { given_eq: EqGivenIdx, trigger_term: u16, eq_order: u16 },
    /// Instantiation -> e-node -> given equality -> anything else.
    YieldEqOther(EqGivenIdx, Vec<EdgeKind>),
    /// E-node -> given equality -> transitive equality.
    ENodeEq(EqGivenIdx),
    /// E-node -> given equality -> transitive equality (single parent) ->
    /// instantiation.
    ENodeBlameEq { given_eq: EqGivenIdx, trigger_term: u16, eq_order: u16 },
    /// E-node -> given equality -> anything else.
    ENodeEqOther(EqGivenIdx, Vec<EdgeKind>),
    /// No recognized pattern: the first and last raw edge, and all kinds.
    Unknown(usize, Vec<EdgeKind>, usize),
}

/// The raw node at position `j` along a raw-edge chain (`j` may equal the
/// chain length, meaning the chain's final target).
pub open spec fn node_at(edges: Seq<Edge>, path: Seq<usize>, j: int) -> int {
    if j == path.len() {
        edges[path[j - 1] as int].to as int
    } else {
        edges[path[j] as int].from as int
    }
}

/// The kinds of the raw edges along a chain.
pub open spec fn kinds_of(edges: Seq<Edge>, path: Seq<usize>) -> Seq<EdgeKind> {
    path.map_values(|k: usize| edges[k as int].kind)
}

/// The unrecognized-pattern fallback.
pub open spec fn unknown_matches(edges: Seq<Edge>, path: Seq<usize>, r: VisibleEdgeKind) -> bool {
    match r {
        VisibleEdgeKind::Unknown(f, v, l) => f == path[0] && v@ == kinds_of(edges, path) && l
            == path[path.len() - 1],
        _ => false,
    }
}

/// The classification of an indirect edge's raw chain, pattern by
/// pattern in order; a chain whose nodes do not carry the kinds the
/// pattern presumes falls back to `Unknown`.
pub open spec fn indirect_kind_matches(
    nodes: Seq<NodeData>,
    edges: Seq<Edge>,
    path: Seq<usize>,
    r: VisibleEdgeKind,
) -> bool {
    let ks = kinds_of(edges, path);
    if path.len() == 2 && ks[0] is Yield && ks[1] is Blame {
        match nodes[node_at(edges, path, 1)].kind {
            NodeKind::ENode(e) => r == VisibleEdgeKind::YieldBlame {
                enode: e,
                trigger_term: ks[1]->Blame_trigger_term,
            },
            _ => unknown_matches(edges, path, r),
        }
    } else if path.len() == 3 && ks[0] is Yield && ks[1] is EqualityFact
        && ks[2] is TEqualitySimple {
        match nodes[node_at(edges, path, 2)].kind {
            NodeKind::GivenEquality(g) => r == VisibleEdgeKind::YieldEq(g),
            _ => unknown_matches(edges, path, r),
        }
    } else if path.len() == 4 && ks[0] is Yield && ks[1] is EqualityFact
        && ks[2] is TEqualitySimple && ks[3] is BlameEq {
        match nodes[node_at(edges, path, 2)].kind {
            NodeKind::GivenEquality(g) => if nodes[node_at(edges, path, 3)].parent_count == 1 {
                r == VisibleEdgeKind::YieldBlameEq {
                    given_eq: g,
                    trigger_term: ks[3]->BlameEq_trigger_term,
                    eq_order: ks[3]->BlameEq_eq_order,
                }
            } else {
                match r {
                    VisibleEdgeKind::YieldEqOther(g2, v) => g2 == g && v@ == ks,
                    _ => false,
                }
            },
            _ => unknown_matches(edges, path, r),
        }
    } else if path.len() >= 2 && ks[0] is Yield && ks[1] is EqualityFact {
        match nodes[node_at(edges, path, 2)].kind {
            NodeKind::GivenEquality(g) => match r {
                VisibleEdgeKind::YieldEqOther(g2, v) => g2 == g && v@ == ks,
                _ => false,
            },
            _ => unknown_matches(edges, path, r),
        }
    } else if path.len() == 2 && ks[0] is EqualityFact && ks[1] is TEqualitySimple {
        match nodes[node_at(edges, path, 1)].kind {
            NodeKind::GivenEquality(g) => r == VisibleEdgeKind::ENodeEq(g),
            _ => unknown_matches(edges, path, r),
        }
    } else if path.len() == 3 && ks[0] is EqualityFact && ks[1] is TEqualitySimple
        && ks[2] is BlameEq {
        match nodes[node_at(edges, path, 1)].kind {
            NodeKind::GivenEquality(g) => if nodes[node_at(edges, path, 2)].parent_count == 1 {
                r == VisibleEdgeKind::ENodeBlameEq {
                    given_eq: g,
                    trigger_term: ks[2]->BlameEq_trigger_term,
                    eq_order: ks[2]->BlameEq_eq_order,
                }
            } else {
                match r {
                    VisibleEdgeKind::ENodeEqOther(g2, v) => g2 == g && v@ == ks,
                    _ => false,
                }
            },
            _ => unknown_matches(edges, path, r),
        }
    } else if ks[0] is EqualityFact {
        match nodes[node_at(edges, path, 1)].kind {
            NodeKind::GivenEquality(g) => match r {
                VisibleEdgeKind::ENodeEqOther(g2, v) => g2 == g && v@ == ks,
                _ => false,
            },
            _ => unknown_matches(edges, path, r),
        }
    } else {
        unknown_matches(edges, path, r)
    }
}

/// The raw edge indices of a visible edge all lie inside the graph and,
/// for an indirect edge, form a non-empty chain.
pub open spec fn visible_edge_in(e: VisibleEdge, m: int) -> bool {
    match e {
        VisibleEdge::Direct(k) => (k as int) < m,
        VisibleEdge::Indirect(p) => p@.len() >= 1 && forall|j: int|
            0 <= j < p@.len() ==> (#[trigger] p@[j]) < m,
    }
}

/// The raw node the chain of a visible edge runs to at position `j`.
fn path_node(graph: &InstGraph, path: &Vec<usize>, j: usize) -> (r: usize)
    requires
        graph.topo_wf(),
        path@.len() >= 1,
        j <= path@.len(),
        forall|j2: int| 0 <= j2 < path@.len() ==> (#[trigger] path@[j2]) < graph.m(),
    ensures
        r == node_at(graph.edges@, path@, j as int),
        r < graph.n(),
{
    if j == path.len() {
        graph.edges[path[j - 1]].to
    } else {
        graph.edges[path[j]].from
    }
}

impl VisibleEdge {
    /// Classifies the edge for display: a direct edge keeps its raw kind,
    /// an indirect edge is matched against the known blame and equality
    /// patterns of its hidden chain.
    #[verifier::loop_isolation(false)]
    #[verifier::rlimit(60)]
    pub fn kind(&self, graph: &InstGraph) -> (r: VisibleEdgeKind)
        requires
            graph.wf(),
            visible_edge_in(*self, graph.m()),
        ensures
            match self {
                VisibleEdge::Direct(k) => r == VisibleEdgeKind::Direct(
                    *k,
                    graph.edges@[*k as int].kind,
                ),
                VisibleEdge::Indirect(p) => indirect_kind_matches(
                    graph.nodes@,
                    graph.edges@,
                    p@,
                    r,
                ),
            },
    {
        let path = match self {
            VisibleEdge::Direct(k) => {
                return VisibleEdgeKind::Direct(*k, graph.edges[*k].kind);
            },
            VisibleEdge::Indirect(p) => p,
        };
        let pl = path.len();
        let mut kinds: Vec<EdgeKind> = Vec::new();
        let mut j: usize = 0;
        while j < pl
            invariant
                j <= pl,
                kinds@.len() == j,
                forall|j2: int|
                    0 <= j2 < j ==> #[trigger] kinds@[j2] == graph.edges@[path@[j2] as int].kind,
            decreases pl - j,
        {
            kinds.push(graph.edges[path[j]].kind);
            j = j + 1;
        }
        proof {
            assert(kinds@ =~= kinds_of(graph.edges@, path@));
        }
        let k0 = kinds[0];
        if pl == 2 && matches!(k0, EdgeKind::Yield) && matches!(kinds[1], EdgeKind::Blame { .. }) {
            let tt = match kinds[1] {
                EdgeKind::Blame { trigger_term } => trigger_term,
                _ => unreached(),
            };
            match graph.nodes[path_node(graph, path, 1)].kind {
                NodeKind::ENode(e) => VisibleEdgeKind::YieldBlame { enode: e, trigger_term: tt },
                _ => VisibleEdgeKind::Unknown(path[0], kinds, path[pl - 1]),
            }
        } else if pl == 3 && matches!(k0, EdgeKind::Yield) && matches!(
            kinds[1],
            EdgeKind::EqualityFact,
        ) && matches!(kinds[2], EdgeKind::TEqualitySimple) {
            match graph.nodes[path_node(graph, path, 2)].kind {
                NodeKind::GivenEquality(g) => VisibleEdgeKind::YieldEq(g),
                _ => VisibleEdgeKind::Unknown(path[0], kinds, path[pl - 1]),
            }
        } else if pl == 4 && matches!(k0, EdgeKind::Yield) && matches!(
            kinds[1],
            EdgeKind::EqualityFact,
        ) && matches!(kinds[2], EdgeKind::TEqualitySimple) && matches!(
            kinds[3],
            EdgeKind::BlameEq { .. },
        ) {
            let (tt, eo) = match kinds[3] {
                EdgeKind::BlameEq { trigger_term, eq_order } => (trigger_term, eq_order),
                _ => unreached(),
            };
            match graph.nodes[path_node(graph, path, 2)].kind {
                NodeKind::GivenEquality(g) => {
                    if graph.nodes[path_node(graph, path, 3)].parent_count == 1 {
                        VisibleEdgeKind::YieldBlameEq { given_eq: g, trigger_term: tt, eq_order: eo }
                    } else {
                        VisibleEdgeKind::YieldEqOther(g, kinds)
                    }
                },
                _ => VisibleEdgeKind::Unknown(path[0], kinds, path[pl - 1]),
            }
        } else if pl >= 2 && matches!(k0, EdgeKind::Yield) && matches!(
            kinds[1],
            EdgeKind::EqualityFact,
        ) {
            match graph.nodes[path_node(graph, path, 2)].kind {
                NodeKind::GivenEquality(g) => VisibleEdgeKind::YieldEqOther(g, kinds),
                _ => VisibleEdgeKind::Unknown(path[0], kinds, path[pl - 1]),
            }
        } else if pl == 2 && matches!(k0, EdgeKind::EqualityFact) && matches!(
            kinds[1],
            EdgeKind::TEqualitySimple,
        ) {
            match graph.nodes[path_node(graph, path, 1)].kind {
                NodeKind::GivenEquality(g) => VisibleEdgeKind::ENodeEq(g),
                _ => VisibleEdgeKind::Unknown(path[0], kinds, path[pl - 1]),
            }
        } else if pl == 3 && matches!(k0, EdgeKind::EqualityFact) && matches!(
            kinds[1],
            EdgeKind::TEqualitySimple,
        ) && matches!(kinds[2], EdgeKind::BlameEq { .. }) {
            let (tt, eo) = match kinds[2] {
                EdgeKind::BlameEq { trigger_term, eq_order } => (trigger_term, eq_order),
                _ => unreached(),
            };
            match graph.nodes[path_node(graph, path, 1)].kind {
                NodeKind::GivenEquality(g) => {
                    if graph.nodes[path_node(graph, path, 2)].parent_count == 1 {
                        VisibleEdgeKind::ENodeBlameEq { given_eq: g, trigger_term: tt, eq_order: eo }
                    } else {
                        VisibleEdgeKind::ENodeEqOther(g, kinds)
                    }
                },
                _ => VisibleEdgeKind::Unknown(path[0], kinds, path[pl - 1]),
            }
        } else if matches!(k0, EdgeKind::EqualityFact) {
            match graph.nodes[path_node(graph, path, 1)].kind {
                NodeKind::GivenEquality(g) => VisibleEdgeKind::ENodeEqOther(g, kinds),
                _ => VisibleEdgeKind::Unknown(path[0], kinds, path[pl - 1]),
            }
        } else {
            VisibleEdgeKind::Unknown(path[0], kinds, path[pl - 1])
        }
    }
}

impl VisibleEdgeKind {
    /// The node a classified edge lays the blame on: the source of the
    /// underlying raw edge for plain and unknown edges, the given
    /// equality for the equality patterns, and the matched e-node for a
    /// yield-blame.
    pub fn blame(&self, graph: &InstGraph) -> (r: NodeKind)
        requires
            graph.topo_wf(),
            match self {
                VisibleEdgeKind::Direct(k, _) => (*k as int) < graph.m(),
                VisibleEdgeKind::Unknown(k, _, _) => (*k as int) < graph.m(),
                _ => true,
            },
        ensures
            match self {
                VisibleEdgeKind::Direct(k, _) => r == graph.nodes@[graph.edges@[*k as int].from as int].kind,
                VisibleEdgeKind::Unknown(k, _, _) => r == graph.nodes@[graph.edges@[*k as int].from as int].kind,
                VisibleEdgeKind::YieldEq(g) => r == NodeKind::GivenEquality(*g),
                VisibleEdgeKind::YieldBlameEq { given_eq, .. } => r == NodeKind::GivenEquality(
                    *given_eq,
                ),
                VisibleEdgeKind::YieldEqOther(g, _) => r == NodeKind::GivenEquality(*g),
                VisibleEdgeKind::ENodeEq(g) => r == NodeKind::GivenEquality(*g),
                VisibleEdgeKind::ENodeBlameEq { given_eq, .. } => r == NodeKind::GivenEquality(
                    *given_eq,
                ),
                VisibleEdgeKind::ENodeEqOther(g, _) => r == NodeKind::GivenEquality(*g),
                VisibleEdgeKind::YieldBlame { enode, .. } => r == NodeKind::ENode(*enode),
            },
    {
        match self {
            VisibleEdgeKind::Direct(k, _) => graph.nodes[graph.edges[*k].from].kind,
            VisibleEdgeKind::Unknown(k, _, _) => graph.nodes[graph.edges[*k].from].kind,
            VisibleEdgeKind::YieldEq(g) => NodeKind::GivenEquality(*g),
            VisibleEdgeKind::YieldBlameEq { given_eq, .. } => NodeKind::GivenEquality(*given_eq),
            VisibleEdgeKind::YieldEqOther(g, _) => NodeKind::GivenEquality(*g),
            VisibleEdgeKind::ENodeEq(g) => NodeKind::GivenEquality(*g),
            VisibleEdgeKind::ENodeBlameEq { given_eq, .. } => NodeKind::GivenEquality(*given_eq),
            VisibleEdgeKind::ENodeEqOther(g, _) => NodeKind::GivenEquality(*g),
            VisibleEdgeKind::YieldBlame { enode, .. } => NodeKind::ENode(*enode),
        }
    }
}

} // verus!
