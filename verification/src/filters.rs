//! The visibility filter engine: a closed set of filter operations, each
//! of which deterministically rewrites the raw graph's visible-flag set,
//! and the orthogonal disabling engine that marks structurally
//! uninteresting nodes. Filters never touch topology, so every operation
//! is reversible by resetting the flags and replaying a chain.
use vstd::prelude::*;

use crate::graph::{
    cost_order_gt, same_shape, same_shape_seq, Edge, GraphError, InstGraph, NodeData,
    NodeKind,
};
use crate::items::QuantIdx;
use crate::longest::lp_path;
use crate::reach::reaches;
use crate::visible::{snapshot_ok, VisibleInstGraph};

verus! {

/// Direction of traversal relative to a node.
#[derive(Clone, Copy, PartialEq, Eq, Structural, Debug)]
pub enum Direction {
    Incoming,
    Outgoing,
}

/// The closed set of filter operations (the user-editable chain is a list
/// of these).
#[derive(Clone, Debug)]
pub enum Filter {
    /// Hide nodes with origin index at or above the bound.
    MaxNodeIdx(usize),
    /// Hide nodes with origin index below the bound.
    MinNodeIdx(usize),
    /// Hide instantiations discovered by theory solving.
    IgnoreTheorySolving,
    /// Hide instantiations of the given quantifier (`None` meaning
    /// discovered without a quantifier).
    IgnoreQuantifier(Option<QuantIdx>),
    /// Hide instantiations of every other quantifier.
    IgnoreAllButQuantifier(Option<QuantIdx>),
    /// Keep only the given number of highest cost-rank instantiations
    /// among the currently visible nodes.
    MaxInsts(usize),
    /// Keep only the given number of most-branching nodes among the
    /// currently visible nodes.
    MaxBranching(usize),
    /// Force-show the direct neighbours of a node, overriding prior
    /// hides.
    ShowNeighbours(usize, Direction),
    /// Restrict to (or hide) the ancestor closure of a node.
    VisitSourceTree(usize, bool),
    /// Restrict to (or hide) the descendant closure of a node.
    VisitSubTreeWithRoot(usize, bool),
    /// Hide nodes whose forward depth exceeds the bound.
    MaxDepth(usize),
    /// Show exactly the longest causal path through a node.
    ShowLongestPath(usize),
    /// Keep only instantiations whose quantifier bears this display name.
    ShowNamedQuantifier(String),
}

/// Auxiliary output of one filter application.
#[derive(Clone, PartialEq, Eq, Debug)]
pub enum FilterOutput {
    /// The node indices on the longest path just shown.
    LongestPath(Vec<usize>),
    /// The filter produced no auxiliary output.
    Nothing,
}

/// Number of nodes below `upto` that are visible instantiations ranking
/// strictly higher than `b` in the cost-rank order.
pub open spec fn count_vis_cost_gt(
    nodes: Seq<NodeData>,
    vis: Seq<bool>,
    b: int,
    upto: int,
) -> nat
    decreases upto,
{
    if upto <= 0 {
        0
    } else {
        count_vis_cost_gt(nodes, vis, b, upto - 1) + if vis[upto - 1] && nodes[upto
            - 1].kind is Instantiation && cost_order_gt(nodes, upto - 1, b) {
            1nat
        } else {
            0nat
        }
    }
}

/// The branching order: more children first, ties towards the smaller
/// origin index.
pub open spec fn branch_order_gt(nodes: Seq<NodeData>, a: int, b: int) -> bool {
    nodes[a].child_count > nodes[b].child_count || (nodes[a].child_count == nodes[b].child_count
        && a < b)
}

/// Number of visible nodes below `upto` ranking strictly higher than `b`
/// in the branching order.
pub open spec fn count_vis_branch_gt(
    nodes: Seq<NodeData>,
    vis: Seq<bool>,
    b: int,
    upto: int,
) -> nat
    decreases upto,
{
    if upto <= 0 {
        0
    } else {
        count_vis_branch_gt(nodes, vis, b, upto - 1) + if vis[upto - 1] && branch_order_gt(
            nodes,
            upto - 1,
            b,
        ) {
            1nat
        } else {
            0nat
        }
    }
}

/// The node's quantifier display name equals the given one.
pub open spec fn name_matches(quant_name: Option<String>, name: String) -> bool {
    match quant_name {
        Some(s) => s@ == name@,
        None => false,
    }
}

/// `i` is a direct neighbour of `x` in the given direction.
pub open spec fn is_neighbour(edges: Seq<Edge>, x: int, i: int, dir: Direction) -> bool {
    match dir {
        Direction::Outgoing => crate::graph::is_edge(edges, x, i),
        Direction::Incoming => crate::graph::is_edge(edges, i, x),
    }
}

impl Filter {
    /// Every node index the filter references lies inside the graph.
    pub open spec fn valid(&self, n: int) -> bool {
        match self {
            Filter::ShowNeighbours(x, _) => (*x as int) < n,
            Filter::VisitSourceTree(x, _) => (*x as int) < n,
            Filter::VisitSubTreeWithRoot(x, _) => (*x as int) < n,
            Filter::ShowLongestPath(x) => (*x as int) < n,
            _ => true,
        }
    }

    /// Whether node `i` is visible after this filter runs on a graph with
    /// the given nodes, edges and previous visibility.
    pub open spec fn keeps(
        &self,
        nodes: Seq<NodeData>,
        edges: Seq<Edge>,
        vis: Seq<bool>,
        i: int,
    ) -> bool {
        let n = nodes.len() as int;
        match self {
            Filter::MaxNodeIdx(mx) => vis[i] && i < *mx as int,
            Filter::MinNodeIdx(mn) => vis[i] && i >= *mn as int,
            Filter::IgnoreTheorySolving => vis[i] && !(nodes[i].kind is Instantiation
                && nodes[i].is_theory_inst),
            Filter::IgnoreQuantifier(q) => vis[i] && !(nodes[i].kind is Instantiation
                && nodes[i].quant == *q),
            Filter::IgnoreAllButQuantifier(q) => vis[i] && !(nodes[i].kind is Instantiation
                && nodes[i].quant != *q),
            Filter::MaxInsts(mx) => vis[i] && nodes[i].kind is Instantiation
                && count_vis_cost_gt(nodes, vis, i, n) < *mx as nat,
            Filter::MaxBranching(mx) => vis[i] && count_vis_branch_gt(nodes, vis, i, n) < *mx
                as nat,
            Filter::ShowNeighbours(x, dir) => vis[i] || is_neighbour(edges, *x as int, i, *dir),
            Filter::VisitSourceTree(x, retain) => if *retain {
                vis[i] && reaches(n, edges, i, *x as int)
            } else {
                vis[i] && !reaches(n, edges, i, *x as int)
            },
            Filter::VisitSubTreeWithRoot(x, retain) => if *retain {
                vis[i] && reaches(n, edges, *x as int, i)
            } else {
                vis[i] && !reaches(n, edges, *x as int, i)
            },
            Filter::MaxDepth(d) => vis[i] && nodes[i].fwd_depth <= *d,
            Filter::ShowLongestPath(x) => lp_path(edges, n, *x as int).contains(i),
            Filter::ShowNamedQuantifier(name) => vis[i] && nodes[i].kind is Instantiation
                && name_matches(nodes[i].quant_name, *name),
        }
    }
}

/// The visibility flags after one filter runs.
pub open spec fn step_vis(
    nodes: Seq<NodeData>,
    edges: Seq<Edge>,
    vis: Seq<bool>,
    f: Filter,
) -> Seq<bool> {
    Seq::new(vis.len(), |i: int| f.keeps(nodes, edges, vis, i))
}

/// The visibility flags after a whole chain runs, front first.
pub open spec fn chain_vis(
    nodes: Seq<NodeData>,
    edges: Seq<Edge>,
    vis: Seq<bool>,
    fs: Seq<Filter>,
) -> Seq<bool>
    decreases fs.len(),
{
    if fs.len() == 0 {
        vis
    } else {
        chain_vis(nodes, edges, step_vis(nodes, edges, vis, fs.first()), fs.drop_first())
    }
}

impl InstGraph {
    /// Overwrites every visibility flag with the given marks; nothing else
    /// changes.
    #[verifier::loop_isolation(false)]
    pub(crate) fn apply_marks(&mut self, marks: &Vec<bool>)
        requires
            marks@.len() == old(self).n(),
        ensures
            final(self).nodes@.len() == old(self).nodes@.len(),
            forall|i: int|
                0 <= i < old(self).n() ==> final(self).nodes@[i] == (NodeData {
                    visible: marks@[i],
                    ..old(self).nodes@[i]
                }),
            final(self).edges@ == old(self).edges@,
            final(self).generation == old(self).generation,
    {
        let n = self.nodes.len();
        let mut i: usize = 0;
        while i < n
            invariant
                i <= n,
                self.n() == n,
                self.edges@ == old(self).edges@,
                self.generation == old(self).generation,
                forall|j: int| i <= j < n ==> self.nodes@[j] == old(self).nodes@[j],
                forall|j: int|
                    0 <= j < i ==> self.nodes@[j] == (NodeData {
                        visible: marks@[j],
                        ..old(self).nodes@[j]
                    }),
            decreases n - i,
        {
            let v = marks[i];
            self.set_visible(i, v);
            i = i + 1;
        }
    }
}

/// Option-of-index equality, spelled out so the contract speaks of
/// structural equality.
fn quant_opt_eq(a: &Option<QuantIdx>, b: &Option<QuantIdx>) -> (r: bool)
    ensures
        r == (a == b),
{
    match (a, b) {
        (Some(x), Some(y)) => x.0 == y.0,
        (None, None) => true,
        _ => false,
    }
}

impl Filter {
    /// The filters whose effect on one node depends only on that node's
    /// record and previous visibility.
    pub open spec fn is_pointwise(&self) -> bool {
        match self {
            Filter::MaxNodeIdx(_) => true,
            Filter::MinNodeIdx(_) => true,
            Filter::IgnoreTheorySolving => true,
            Filter::IgnoreQuantifier(_) => true,
            Filter::IgnoreAllButQuantifier(_) => true,
            Filter::MaxDepth(_) => true,
            Filter::ShowNamedQuantifier(_) => true,
            _ => false,
        }
    }
}

impl InstGraph {
    /// Computes the post-filter visibility for the pointwise filters.
    #[verifier::loop_isolation(false)]
    fn marks_pointwise(&self, f: &Filter) -> (r: Vec<bool>)
        requires
            f.is_pointwise(),
        ensures
            r@.len() == self.n(),
            forall|i: int|
                0 <= i < self.n() ==> r@[i] == f.keeps(self.nodes@, self.edges@, self.vis(), i),
    {
        let n = self.nodes.len();
        let mut r: Vec<bool> = Vec::new();
        let mut i: usize = 0;
        while i < n
            invariant
                i <= n,
                r@.len() == i,
                forall|j: int|
                    0 <= j < i ==> r@[j] == f.keeps(self.nodes@, self.edges@, self.vis(), j),
            decreases n - i,
        {
            let nd = &self.nodes[i];
            let old_v = nd.visible;
            let is_inst = matches!(nd.kind, NodeKind::Instantiation(_));
            let keep = match f {
                Filter::MaxNodeIdx(mx) => old_v && i < *mx,
                Filter::MinNodeIdx(mn) => old_v && i >= *mn,
                Filter::IgnoreTheorySolving => old_v && !(is_inst && nd.is_theory_inst),
                Filter::IgnoreQuantifier(q) => old_v && !(is_inst && quant_opt_eq(&nd.quant, q)),
                Filter::IgnoreAllButQuantifier(q) => old_v && !(is_inst && !quant_opt_eq(
                    &nd.quant,
                    q,
                )),
                Filter::MaxDepth(d) => old_v && nd.fwd_depth <= *d,
                Filter::ShowNamedQuantifier(name) => old_v && is_inst && match &nd.quant_name {
                    Some(s) => s.eq(name),
                    None => false,
                },
                _ => unreached(),
            };
            r.push(keep);
            i = i + 1;
        }
        r
    }

    /// Computes the post-filter visibility for a top-k retention by cost
    /// rank over the visible instantiations.
    #[verifier::loop_isolation(false)]
    fn marks_max_insts(&self, mx: usize) -> (r: Vec<bool>)
        ensures
            r@.len() == self.n(),
            forall|i: int|
                0 <= i < self.n() ==> r@[i] == Filter::MaxInsts(mx).keeps(
                    self.nodes@,
                    self.edges@,
                    self.vis(),
                    i,
                ),
    {
        let n = self.nodes.len();
        let mut r: Vec<bool> = Vec::new();
        let mut i: usize = 0;
        while i < n
            invariant
                i <= n,
                r@.len() == i,
                forall|j: int|
                    0 <= j < i ==> r@[j] == Filter::MaxInsts(mx).keeps(
                        self.nodes@,
                        self.edges@,
                        self.vis(),
                        j,
                    ),
            decreases n - i,
        {
            let mut c: usize = 0;
            let mut u: usize = 0;
            while u < n
                invariant
                    u <= n,
                    c <= u,
                    c == count_vis_cost_gt(self.nodes@, self.vis(), i as int, u as int),
                decreases n - u,
            {
                let nu = &self.nodes[u];
                let a = nu.cost;
                let b = self.nodes[i].cost;
                if nu.visible && matches!(nu.kind, NodeKind::Instantiation(_)) && (a > b || (a == b
                    && u < i)) {
                    c = c + 1;
                }
                u = u + 1;
            }
            let nd = &self.nodes[i];
            let keep = nd.visible && matches!(nd.kind, NodeKind::Instantiation(_)) && c < mx;
            r.push(keep);
            i = i + 1;
        }
        r
    }

    /// Computes the post-filter visibility for a top-k retention by
    /// branching over the visible nodes.
    #[verifier::loop_isolation(false)]
    fn marks_max_branching(&self, mx: usize) -> (r: Vec<bool>)
        ensures
            r@.len() == self.n(),
            forall|i: int|
                0 <= i < self.n() ==> r@[i] == Filter::MaxBranching(mx).keeps(
                    self.nodes@,
                    self.edges@,
                    self.vis(),
                    i,
                ),
    {
        let n = self.nodes.len();
        let mut r: Vec<bool> = Vec::new();
        let mut i: usize = 0;
        while i < n
            invariant
                i <= n,
                r@.len() == i,
                forall|j: int|
                    0 <= j < i ==> r@[j] == Filter::MaxBranching(mx).keeps(
                        self.nodes@,
                        self.edges@,
                        self.vis(),
                        j,
                    ),
            decreases n - i,
        {
            let mut c: usize = 0;
            let mut u: usize = 0;
            while u < n
                invariant
                    u <= n,
                    c <= u,
                    c == count_vis_branch_gt(self.nodes@, self.vis(), i as int, u as int),
                decreases n - u,
            {
                let nu = &self.nodes[u];
                let a = nu.child_count;
                let b = self.nodes[i].child_count;
                if nu.visible && (a > b || (a == b && u < i)) {
                    c = c + 1;
                }
                u = u + 1;
            }
            let keep = self.nodes[i].visible && c < mx;
            r.push(keep);
            i = i + 1;
        }
        r
    }

    /// Computes the post-filter visibility for force-showing the direct
    /// neighbours of `x`.
    #[verifier::loop_isolation(false)]
    fn marks_show_neighbours(&self, x: usize, dir: Direction) -> (r: Vec<bool>)
        requires
            x < self.n(),
        ensures
            r@.len() == self.n(),
            forall|i: int|
                0 <= i < self.n() ==> r@[i] == Filter::ShowNeighbours(x, dir).keeps(
                    self.nodes@,
                    self.edges@,
                    self.vis(),
                    i,
                ),
    {
        let n = self.nodes.len();
        let m = self.edges.len();
        let mut r: Vec<bool> = Vec::new();
        let mut i: usize = 0;
        while i < n
            invariant
                i <= n,
                r@.len() == i,
                forall|j: int|
                    0 <= j < i ==> r@[j] == Filter::ShowNeighbours(x, dir).keeps(
                        self.nodes@,
                        self.edges@,
                        self.vis(),
                        j,
                    ),
            decreases n - i,
        {
            let mut nb = false;
            let mut k: usize = 0;
            while k < m
                invariant
                    k <= m,
                    nb ==> is_neighbour(self.edges@, x as int, i as int, dir),
                    !nb ==> forall|k2: int|
                        0 <= k2 < k ==> !(match dir {
                            Direction::Outgoing => (#[trigger] self.edges@[k2]).from == x
                                && self.edges@[k2].to == i,
                            Direction::Incoming => (#[trigger] self.edges@[k2]).from == i
                                && self.edges@[k2].to == x,
                        }),
                decreases m - k,
            {
                let e = &self.edges[k];
                let hit = match dir {
                    Direction::Outgoing => e.from == x && e.to == i,
                    Direction::Incoming => e.from == i && e.to == x,
                };
                if hit {
                    nb = true;
                }
                k = k + 1;
            }
            proof {
                if !nb {
                    assert(!is_neighbour(self.edges@, x as int, i as int, dir));
                }
            }
            let keep = self.nodes[i].visible || nb;
            r.push(keep);
            i = i + 1;
        }
        r
    }

    /// Computes the post-filter visibility for restricting to (or hiding)
    /// a reachability closure of `x`.
    #[verifier::loop_isolation(false)]
    fn marks_closure(&self, x: usize, retain: bool, fwd: bool) -> (r: Vec<bool>)
        requires
            self.topo_wf(),
            x < self.n(),
        ensures
            r@.len() == self.n(),
            fwd ==> forall|i: int|
                0 <= i < self.n() ==> r@[i] == Filter::VisitSubTreeWithRoot(x, retain).keeps(
                    self.nodes@,
                    self.edges@,
                    self.vis(),
                    i,
                ),
            !fwd ==> forall|i: int|
                0 <= i < self.n() ==> r@[i] == Filter::VisitSourceTree(x, retain).keeps(
                    self.nodes@,
                    self.edges@,
                    self.vis(),
                    i,
                ),
    {
        let n = self.nodes.len();
        let closure = if fwd {
            self.forward_closure(x)
        } else {
            self.backward_closure(x)
        };
        let mut r: Vec<bool> = Vec::new();
        let mut i: usize = 0;
        while i < n
            invariant
                i <= n,
                r@.len() == i,
                closure@.len() == n,
                n == self.n(),
                x < self.n(),
                self.topo_wf(),
                fwd ==> forall|j: int|
                    0 <= j < n ==> closure@[j] == reaches(self.n(), self.edges@, x as int, j),
                !fwd ==> forall|j: int|
                    0 <= j < n ==> closure@[j] == reaches(self.n(), self.edges@, j, x as int),
                fwd ==> forall|j: int|
                    0 <= j < i ==> r@[j] == Filter::VisitSubTreeWithRoot(x, retain).keeps(
                        self.nodes@,
                        self.edges@,
                        self.vis(),
                        j,
                    ),
                !fwd ==> forall|j: int|
                    0 <= j < i ==> r@[j] == Filter::VisitSourceTree(x, retain).keeps(
                        self.nodes@,
                        self.edges@,
                        self.vis(),
                        j,
                    ),
            decreases n - i,
        {
            let inc = closure[i];
            let keep = if retain {
                self.nodes[i].visible && inc
            } else {
                self.nodes[i].visible && !inc
            };
            r.push(keep);
            i = i + 1;
        }
        r
    }

    /// Computes the post-filter visibility for showing exactly the longest
    /// path through `x`, and that path itself.
    #[verifier::loop_isolation(false)]
    fn marks_longest_path(&self, x: usize) -> (r: (Vec<bool>, Vec<usize>))
        requires
            self.topo_wf(),
            x < self.n(),
        ensures
            r.0@.len() == self.n(),
            forall|i: int|
                0 <= i < self.n() ==> r.0@[i] == Filter::ShowLongestPath(x).keeps(
                    self.nodes@,
                    self.edges@,
                    self.vis(),
                    i,
                ),
            r.1@.map_values(|u: usize| u as int) == lp_path(self.edges@, self.n(), x as int),
    {
        let n = self.nodes.len();
        let path = self.longest_path_through(x);
        proof {
            crate::longest::lemma_lp_path(self.edges@, self.n(), x as int);
        }
        let mut marks: Vec<bool> = Vec::new();
        let mut i: usize = 0;
        while i < n
            invariant
                i <= n,
                marks@.len() == i,
                forall|j: int| 0 <= j < i ==> !marks@[j],
            decreases n - i,
        {
            marks.push(false);
            i = i + 1;
        }
        let mut t: usize = 0;
        while t < path.len()
            invariant
                t <= path@.len(),
                marks@.len() == n,
                n == self.n(),
                x < self.n(),
                self.topo_wf(),
                path@.map_values(|u: usize| u as int) == lp_path(self.edges@, self.n(), x as int),
                crate::reach::valid_path(
                    self.n(),
                    self.edges@,
                    path@.map_values(|u: usize| u as int),
                ),
                forall|j: int|
                    0 <= j < n ==> marks@[j] == exists|t2: int|
                        0 <= t2 < t && (#[trigger] path@[t2]) as int == j,
            decreases path@.len() - t,
        {
            let u = path[t];
            proof {
                assert(path@.map_values(|u2: usize| u2 as int)[t as int] == u as int);
                assert(0 <= u < n);
            }
            marks.set(u, true);
            proof {
                assert forall|j: int|
                    0 <= j < n implies marks@[j] == exists|t2: int|
                        0 <= t2 < t + 1 && (#[trigger] path@[t2]) as int == j by {
                    if j == u as int {
                        assert(path@[t as int] as int == j);
                    }
                }
            }
            t = t + 1;
        }
        proof {
            let lp = lp_path(self.edges@, self.n(), x as int);
            assert forall|j: int|
                0 <= j < n implies marks@[j] == Filter::ShowLongestPath(x).keeps(
                self.nodes@,
                self.edges@,
                self.vis(),
                j,
            ) by {
                let pm = path@.map_values(|u: usize| u as int);
                if marks@[j] {
                    let t2 = choose|t2: int| 0 <= t2 < path@.len() && (#[trigger] path@[t2]) as int == j;
                    assert(pm[t2] == j);
                    assert(lp.contains(j));
                } else {
                    if lp.contains(j) {
                        let t2 = choose|t2: int| 0 <= t2 < lp.len() && lp[t2] == j;
                        assert(path@[t2] as int == j);
                    }
                }
            }
        }
        (marks, path)
    }
}

impl Filter {
    /// Applies this filter to the raw graph: visibility flags are
    /// rewritten exactly as `keeps` describes, nothing else changes, and
    /// a filter referencing a node outside the graph is rejected whole.
    /// `ShowLongestPath` additionally hands back the path it showed.
    #[verifier::rlimit(30)]
    pub fn apply(&self, graph: &mut InstGraph) -> (r: Result<FilterOutput, GraphError>)
        requires
            old(graph).wf(),
        ensures
            final(graph).wf(),
            final(graph).edges@ == old(graph).edges@,
            final(graph).generation == old(graph).generation,
            same_shape_seq(final(graph).nodes@, old(graph).nodes@),
            forall|i: int|
                0 <= i < old(graph).n() ==> final(graph).nodes@[i].disabled == old(
                    graph,
                ).nodes@[i].disabled,
            match r {
                Ok(out) => {
                    &&& self.valid(old(graph).n())
                    &&& final(graph).vis() == step_vis(
                        old(graph).nodes@,
                        old(graph).edges@,
                        old(graph).vis(),
                        *self,
                    )
                    &&& match out {
                        FilterOutput::LongestPath(p) => self is ShowLongestPath
                            && p@.map_values(|u: usize| u as int) == lp_path(
                            old(graph).edges@,
                            old(graph).n(),
                            self->ShowLongestPath_0 as int,
                        ),
                        FilterOutput::Nothing => !(self is ShowLongestPath),
                    }
                },
                Err(e) => {
                    &&& e == GraphError::NodeOutOfRange
                    &&& !self.valid(old(graph).n())
                    &&& final(graph).nodes@ == old(graph).nodes@
                },
            },
    {
        let n = graph.nodes.len();
        let mut output = FilterOutput::Nothing;
        let marks = match self {
            Filter::MaxNodeIdx(_)
            | Filter::MinNodeIdx(_)
            | Filter::IgnoreTheorySolving
            | Filter::IgnoreQuantifier(_)
            | Filter::IgnoreAllButQuantifier(_)
            | Filter::MaxDepth(_)
            | Filter::ShowNamedQuantifier(_) => graph.marks_pointwise(self),
            Filter::MaxInsts(mx) => graph.marks_max_insts(*mx),
            Filter::MaxBranching(mx) => graph.marks_max_branching(*mx),
            Filter::ShowNeighbours(x, dir) => {
                if *x >= n {
                    return Err(GraphError::NodeOutOfRange);
                }
                graph.marks_show_neighbours(*x, *dir)
            },
            Filter::VisitSourceTree(x, retain) => {
                if *x >= n {
                    return Err(GraphError::NodeOutOfRange);
                }
                graph.marks_closure(*x, *retain, false)
            },
            Filter::VisitSubTreeWithRoot(x, retain) => {
                if *x >= n {
                    return Err(GraphError::NodeOutOfRange);
                }
                graph.marks_closure(*x, *retain, true)
            },
            Filter::ShowLongestPath(x) => {
                if *x >= n {
                    return Err(GraphError::NodeOutOfRange);
                }
                let (lp_marks, path) = graph.marks_longest_path(*x);
                output = FilterOutput::LongestPath(path);
                lp_marks
            },
        };
        graph.apply_marks(&marks);
        proof {
            assert(same_shape_seq(graph.nodes@, old(graph).nodes@));
            crate::graph::lemma_wf_same_shape(*old(graph), *graph);
            assert(graph.vis() =~= step_vis(
                old(graph).nodes@,
                old(graph).edges@,
                old(graph).vis(),
                *self,
            ));
        }
        Ok(output)
    }
}

/// The disabling engine's selectable policies. Several may be active at
/// once; a node is disabled when any active policy disables it.
#[derive(Clone, Copy, PartialEq, Eq, Structural, Debug)]
pub enum Disabler {
    /// Disable pass-through nodes that contribute no branching
    /// information.
    Smart,
    /// Disable every e-node.
    ENodes,
    /// Disable every directly asserted equality node.
    GivenEqualities,
    /// Disable every equality node, given or derived.
    AllEqualities,
}

/// Whether one policy disables node `i`. The rule reads only the node's
/// kind and its full-graph neighbour counts, never the visibility flags.
pub open spec fn disable_spec(d: Disabler, nodes: Seq<NodeData>, i: int) -> bool {
    match d {
        Disabler::ENodes => nodes[i].kind is ENode,
        Disabler::GivenEqualities => nodes[i].kind is GivenEquality,
        Disabler::AllEqualities => nodes[i].kind is GivenEquality || nodes[i].kind is TransEquality,
        Disabler::Smart => match nodes[i].kind {
            NodeKind::ENode(_) => nodes[i].child_count == 0 || (nodes[i].parent_count == 1
                && nodes[i].child_count == 1),
            NodeKind::GivenEquality(_) => nodes[i].child_count == 0 || (nodes[i].parent_count == 1
                && nodes[i].child_count == 1),
            NodeKind::TransEquality(_) => nodes[i].parent_count == 0 || (nodes[i].parent_count == 1
                && nodes[i].child_count == 1),
            NodeKind::Instantiation(_) => false,
        },
    }
}

impl Disabler {
    /// Whether this policy disables the given node.
    pub fn disable(&self, graph: &InstGraph, idx: usize) -> (r: bool)
        requires
            idx < graph.n(),
        ensures
            r == disable_spec(*self, graph.nodes@, idx as int),
    {
        let nd = &graph.nodes[idx];
        match self {
            Disabler::ENodes => matches!(nd.kind, NodeKind::ENode(_)),
            Disabler::GivenEqualities => matches!(nd.kind, NodeKind::GivenEquality(_)),
            Disabler::AllEqualities => matches!(nd.kind, NodeKind::GivenEquality(_)) || matches!(
                nd.kind,
                NodeKind::TransEquality(_),
            ),
            Disabler::Smart => match nd.kind {
                NodeKind::ENode(_) => nd.child_count == 0 || (nd.parent_count == 1
                    && nd.child_count == 1),
                NodeKind::GivenEquality(_) => nd.child_count == 0 || (nd.parent_count == 1
                    && nd.child_count == 1),
                NodeKind::TransEquality(_) => nd.parent_count == 0 || (nd.parent_count == 1
                    && nd.child_count == 1),
                NodeKind::Instantiation(_) => false,
            },
        }
    }

    /// Recomputes every node's disabled mark as the union of the active
    /// policies. Visibility never changes here: disabling is independent
    /// of the filter chain.
    pub fn apply(disablers: &Vec<Disabler>, graph: &mut InstGraph)
        ensures
            final(graph).nodes@.len() == old(graph).nodes@.len(),
            forall|i: int|
                0 <= i < old(graph).n() ==> final(graph).nodes@[i] == (NodeData {
                    disabled: exists|k: int|
                        0 <= k < disablers@.len() && disable_spec(
                            #[trigger] disablers@[k],
                            old(graph).nodes@,
                            i,
                        ),
                    ..old(graph).nodes@[i]
                }),
            final(graph).edges@ == old(graph).edges@,
            final(graph).generation == old(graph).generation,
            old(graph).wf() ==> final(graph).wf(),
    {
        graph.reset_disabled_to(disablers);
    }

    /// A short description of what the policy disables.
    pub fn description(&self) -> (r: &'static str)
        ensures
            r@ == self.description_spec(),
    {
        match self {
            Disabler::Smart => "trivial nodes",
            Disabler::ENodes => "yield terms",
            Disabler::GivenEqualities => "yield equalities",
            Disabler::AllEqualities => "all equalities",
        }
    }

    pub open spec fn description_spec(&self) -> Seq<char> {
        match self {
            Disabler::Smart => "trivial nodes"@,
            Disabler::ENodes => "yield terms"@,
            Disabler::GivenEqualities => "yield equalities"@,
            Disabler::AllEqualities => "all equalities"@,
        }
    }

    /// The icon name a front-end shows for the policy.
    pub fn icon(&self) -> (r: &'static str)
        ensures
            r@ == self.icon_spec(),
    {
        match self {
            Disabler::Smart => "low_priority",
            Disabler::ENodes => "functions",
            Disabler::GivenEqualities => "compare_arrows",
            Disabler::AllEqualities => "compare_arrows",
        }
    }

    pub open spec fn icon_spec(&self) -> Seq<char> {
        match self {
            Disabler::Smart => "low_priority"@,
            Disabler::ENodes => "functions"@,
            Disabler::GivenEqualities => "compare_arrows"@,
            Disabler::AllEqualities => "compare_arrows"@,
        }
    }
}

impl InstGraph {
    /// Rewrites every disabled mark to the union of the given policies,
    /// evaluated against the full raw graph.
    #[verifier::loop_isolation(false)]
    pub fn reset_disabled_to(&mut self, disablers: &Vec<Disabler>)
        ensures
            final(self).nodes@.len() == old(self).nodes@.len(),
            forall|i: int|
                0 <= i < old(self).n() ==> final(self).nodes@[i] == (NodeData {
                    disabled: exists|k: int|
                        0 <= k < disablers@.len() && disable_spec(
                            #[trigger] disablers@[k],
                            old(self).nodes@,
                            i,
                        ),
                    ..old(self).nodes@[i]
                }),
            final(self).edges@ == old(self).edges@,
            final(self).generation == old(self).generation,
            old(self).wf() ==> final(self).wf(),
    {
        let n = self.nodes.len();
        let nd_count = disablers.len();
        let mut dm: Vec<bool> = Vec::new();
        let mut i: usize = 0;
        while i < n
            invariant
                i <= n,
                dm@.len() == i,
                forall|j: int|
                    0 <= j < i ==> dm@[j] == exists|k: int|
                        0 <= k < disablers@.len() && disable_spec(
                            #[trigger] disablers@[k],
                            self.nodes@,
                            j,
                        ),
            decreases n - i,
        {
            let mut any = false;
            let mut k: usize = 0;
            while k < nd_count
                invariant
                    k <= nd_count,
                    i < n,
                    any == exists|k2: int|
                        0 <= k2 < k && disable_spec(
                            #[trigger] disablers@[k2],
                            self.nodes@,
                            i as int,
                        ),
                decreases nd_count - k,
            {
                if disablers[k].disable(self, i) {
                    any = true;
                }
                k = k + 1;
            }
            dm.push(any);
            i = i + 1;
        }
        let mut i: usize = 0;
        while i < n
            invariant
                i <= n,
                self.n() == n,
                self.edges@ == old(self).edges@,
                self.generation == old(self).generation,
                forall|j: int| i <= j < n ==> self.nodes@[j] == old(self).nodes@[j],
                forall|j: int|
                    0 <= j < i ==> self.nodes@[j] == (NodeData {
                        disabled: dm@[j],
                        ..old(self).nodes@[j]
                    }),
                dm@.len() == n,
                forall|j: int|
                    0 <= j < n ==> dm@[j] == exists|k: int|
                        0 <= k < disablers@.len() && disable_spec(
                            #[trigger] disablers@[k],
                            old(self).nodes@,
                            j,
                        ),
            decreases n - i,
        {
            let v = dm[i];
            self.set_disabled(i, v);
            i = i + 1;
        }
        proof {
            if old(self).wf() {
                assert(same_shape_seq(self.nodes@, old(self).nodes@));
                crate::graph::lemma_wf_same_shape(*old(self), *self);
            }
        }
    }
}

/// The all-visible flag assignment a chain replay starts from.
pub open spec fn all_visible(n: int) -> Seq<bool> {
    Seq::new(n as nat, |i: int| true)
}

/// Replaying one more filter is one more step on the replayed prefix.
pub proof fn lemma_chain_vis_snoc(
    nodes: Seq<NodeData>,
    edges: Seq<Edge>,
    vis: Seq<bool>,
    fs: Seq<Filter>,
    t: int,
)
    requires
        0 <= t < fs.len(),
    ensures
        chain_vis(nodes, edges, vis, fs.take(t + 1)) == step_vis(
            nodes,
            edges,
            chain_vis(nodes, edges, vis, fs.take(t)),
            fs[t],
        ),
    decreases t,
{
    let pre = fs.take(t + 1);
    if t == 0 {
        assert(pre.drop_first() =~= Seq::<Filter>::empty());
        assert(fs.take(0) =~= Seq::<Filter>::empty());
        assert(chain_vis(nodes, edges, vis, pre) == chain_vis(
            nodes,
            edges,
            step_vis(nodes, edges, vis, pre.first()),
            pre.drop_first(),
        ));
        assert(pre.first() == fs[0]);
    } else {
        let vis2 = step_vis(nodes, edges, vis, fs.first());
        lemma_chain_vis_snoc(nodes, edges, vis2, fs.drop_first(), t - 1);
        assert(pre.first() == fs.first());
        assert(pre.drop_first() =~= fs.drop_first().take(t));
        assert(fs.take(t).first() == fs.first());
        assert(fs.take(t).drop_first() =~= fs.drop_first().take(t - 1));
        assert(fs.drop_first()[t - 1] == fs[t]);
    }
}

impl InstGraph {
    /// Whether the node has at least one hidden direct child.
    #[verifier::loop_isolation(false)]
    pub fn node_has_filtered_children(&self, i: usize) -> (r: bool)
        requires
            self.topo_wf(),
            i < self.n(),
        ensures
            r == exists|k: int|
                0 <= k < self.m() && (#[trigger] self.edges@[k]).from == i
                    && !self.nodes@[self.edges@[k].to as int].visible,
    {
        let m = self.edges.len();
        let mut k: usize = 0;
        let mut r = false;
        while k < m
            invariant
                k <= m,
                r == exists|k2: int|
                    0 <= k2 < k && (#[trigger] self.edges@[k2]).from == i
                        && !self.nodes@[self.edges@[k2].to as int].visible,
            decreases m - k,
        {
            if self.edges[k].from == i && !self.nodes[self.edges[k].to].visible {
                r = true;
            }
            k = k + 1;
        }
        r
    }

    /// Whether the node has at least one hidden direct parent.
    #[verifier::loop_isolation(false)]
    pub fn node_has_filtered_parents(&self, i: usize) -> (r: bool)
        requires
            self.topo_wf(),
            i < self.n(),
        ensures
            r == exists|k: int|
                0 <= k < self.m() && (#[trigger] self.edges@[k]).to == i
                    && !self.nodes@[self.edges@[k].from as int].visible,
    {
        let m = self.edges.len();
        let mut k: usize = 0;
        let mut r = false;
        while k < m
            invariant
                k <= m,
                r == exists|k2: int|
                    0 <= k2 < k && (#[trigger] self.edges@[k2]).to == i
                        && !self.nodes@[self.edges@[k2].from as int].visible,
            decreases m - k,
        {
            if self.edges[k].to == i && !self.nodes[self.edges[k].from].visible {
                r = true;
            }
            k = k + 1;
        }
        r
    }

    /// Restores every node to visible, bumps the generation, and hands
    /// out a fresh snapshot: the whole graph becomes renderable again.
    pub fn reset(&mut self) -> (vg: VisibleInstGraph)
        requires
            old(self).wf(),
            old(self).generation < u64::MAX,
        ensures
            final(self).wf(),
            final(self).edges@ == old(self).edges@,
            same_shape_seq(final(self).nodes@, old(self).nodes@),
            forall|i: int|
                0 <= i < old(self).n() ==> final(self).nodes@[i].disabled == old(
                    self,
                ).nodes@[i].disabled,
            final(self).vis() == all_visible(old(self).n()),
            final(self).generation == old(self).generation + 1,
            snapshot_ok(*final(self), vg),
    {
        let n = self.nodes.len();
        let mut marks: Vec<bool> = Vec::new();
        let mut i: usize = 0;
        while i < n
            invariant
                i <= n,
                marks@.len() == i,
                forall|j: int| 0 <= j < i ==> marks@[j],
            decreases n - i,
        {
            marks.push(true);
            i = i + 1;
        }
        self.apply_marks(&marks);
        self.generation = self.generation + 1;
        proof {
            assert(same_shape_seq(self.nodes@, old(self).nodes@));
            crate::graph::lemma_wf_same_shape(*old(self), *self);
            assert(self.vis() =~= all_visible(old(self).n()));
        }
        self.to_visible()
    }

    /// Replays a whole filter chain against the fully visible graph, in
    /// order, and hands out the resulting snapshot. The chain is
    /// validated up front: a filter referencing a node outside the graph
    /// rejects the whole chain, leaving the graph untouched.
    #[verifier::loop_isolation(false)]
    #[verifier::rlimit(30)]
    pub fn apply_chain(&mut self, chain: &Vec<Filter>) -> (r: Result<
        VisibleInstGraph,
        GraphError,
    >)
        requires
            old(self).wf(),
            old(self).generation < u64::MAX,
        ensures
            final(self).wf(),
            final(self).edges@ == old(self).edges@,
            same_shape_seq(final(self).nodes@, old(self).nodes@),
            forall|i: int|
                0 <= i < old(self).n() ==> final(self).nodes@[i].disabled == old(
                    self,
                ).nodes@[i].disabled,
            match r {
                Ok(vg) => {
                    &&& forall|t: int| 0 <= t < chain@.len() ==> (#[trigger] chain@[t]).valid(
                        old(self).n(),
                    )
                    &&& final(self).vis() == chain_vis(
                        old(self).nodes@,
                        old(self).edges@,
                        all_visible(old(self).n()),
                        chain@,
                    )
                    &&& final(self).generation == old(self).generation + 1
                    &&& snapshot_ok(*final(self), vg)
                },
                Err(e) => {
                    &&& e == GraphError::NodeOutOfRange
                    &&& !(forall|t: int| 0 <= t < chain@.len() ==> (#[trigger] chain@[t]).valid(
                        old(self).n(),
                    ))
                    &&& final(self).nodes@ == old(self).nodes@
                    &&& final(self).generation == old(self).generation
                },
            },
    {
        let n = self.nodes.len();
        // Validate the whole chain first: application is all-or-nothing.
        let clen = chain.len();
        let mut t: usize = 0;
        while t < clen
            invariant
                t <= clen,
                forall|t2: int| 0 <= t2 < t ==> (#[trigger] chain@[t2]).valid(self.n()),
            decreases clen - t,
        {
            let ok = match &chain[t] {
                Filter::ShowNeighbours(x, _) => *x < n,
                Filter::VisitSourceTree(x, _) => *x < n,
                Filter::VisitSubTreeWithRoot(x, _) => *x < n,
                Filter::ShowLongestPath(x) => *x < n,
                _ => true,
            };
            if !ok {
                return Err(GraphError::NodeOutOfRange);
            }
            t = t + 1;
        }

        // Replay from a fully visible graph.
        let mut marks: Vec<bool> = Vec::new();
        let mut i: usize = 0;
        while i < n
            invariant
                i <= n,
                marks@.len() == i,
                forall|j: int| 0 <= j < i ==> marks@[j],
            decreases n - i,
        {
            marks.push(true);
            i = i + 1;
        }
        self.apply_marks(&marks);
        proof {
            assert(same_shape_seq(self.nodes@, old(self).nodes@));
            crate::graph::lemma_wf_same_shape(*old(self), *self);
            assert(self.vis() =~= all_visible(old(self).n()));
            assert(chain@.take(0) =~= Seq::<Filter>::empty());
        }
        let mut t: usize = 0;
        while t < clen
            invariant
                t <= clen,
                self.wf(),
                self.n() == old(self).n(),
                self.edges@ == old(self).edges@,
                self.generation == old(self).generation,
                same_shape_seq(self.nodes@, old(self).nodes@),
                forall|i2: int|
                    0 <= i2 < old(self).n() ==> self.nodes@[i2].disabled == old(
                        self,
                    ).nodes@[i2].disabled,
                forall|t2: int| 0 <= t2 < clen ==> (#[trigger] chain@[t2]).valid(old(self).n()),
                self.vis() == chain_vis(
                    old(self).nodes@,
                    old(self).edges@,
                    all_visible(old(self).n()),
                    chain@.take(t as int),
                ),
            decreases clen - t,
        {
            let ghost pre = *self;
            let res = chain[t].apply(self);
            proof {
                match res {
                    Ok(_) => {},
                    Err(_) => {
                        assert(chain@[t as int].valid(old(self).n()));
                        assert(false);
                    },
                }
                lemma_chain_vis_snoc(
                    old(self).nodes@,
                    old(self).edges@,
                    all_visible(old(self).n()),
                    chain@,
                    t as int,
                );
                assert(step_vis(pre.nodes@, pre.edges@, pre.vis(), chain@[t as int]) =~= step_vis(
                    old(self).nodes@,
                    old(self).edges@,
                    pre.vis(),
                    chain@[t as int],
                )) by {
                    assert forall|i2: int|
                        0 <= i2 < pre.n() implies chain@[t as int].keeps(
                        pre.nodes@,
                        pre.edges@,
                        pre.vis(),
                        i2,
                    ) == chain@[t as int].keeps(
                        old(self).nodes@,
                        old(self).edges@,
                        pre.vis(),
                        i2,
                    ) by {
                        lemma_keeps_shape(
                            pre.nodes@,
                            old(self).nodes@,
                            old(self).edges@,
                            pre.vis(),
                            chain@[t as int],
                            i2,
                        );
                    }
                }
                assert(chain@.take(t + 1) =~= chain@.take(t as int).push(chain@[t as int]));
            }
            t = t + 1;
        }
        proof {
            assert(chain@.take(clen as int) =~= chain@);
        }
        self.generation = self.generation + 1;
        let vg = self.to_visible();
        Ok(vg)
    }
}

/// A filter's per-node verdict reads only fields that filters never
/// change, so it is the same against the pre-chain node records.
proof fn lemma_keeps_shape(
    a: Seq<NodeData>,
    b: Seq<NodeData>,
    edges: Seq<Edge>,
    vis: Seq<bool>,
    f: Filter,
    i: int,
)
    requires
        same_shape_seq(a, b),
        0 <= i < a.len(),
    ensures
        f.keeps(a, edges, vis, i) == f.keeps(b, edges, vis, i),
{
    assert(same_shape(a[i], b[i]));
    match f {
        Filter::MaxInsts(_) => {
            lemma_count_vis_cost_gt_shape(a, b, vis, i, a.len() as int);
        },
        Filter::MaxBranching(_) => {
            lemma_count_vis_branch_gt_shape(a, b, vis, i, a.len() as int);
        },
        _ => {},
    }
}

/// `count_vis_cost_gt` reads only costs and kinds, which `same_shape`
/// preserves.
proof fn lemma_count_vis_cost_gt_shape(
    a: Seq<NodeData>,
    b: Seq<NodeData>,
    vis: Seq<bool>,
    i: int,
    upto: int,
)
    requires
        same_shape_seq(a, b),
        0 <= upto <= a.len(),
        0 <= i < a.len(),
    ensures
        count_vis_cost_gt(a, vis, i, upto) == count_vis_cost_gt(b, vis, i, upto),
    decreases upto,
{
    if upto > 0 {
        lemma_count_vis_cost_gt_shape(a, b, vis, i, upto - 1);
        assert(same_shape(a[upto - 1], b[upto - 1]));
        assert(same_shape(a[i], b[i]));
    }
}

/// `count_vis_branch_gt` reads only child counts, which `same_shape`
/// preserves.
proof fn lemma_count_vis_branch_gt_shape(
    a: Seq<NodeData>,
    b: Seq<NodeData>,
    vis: Seq<bool>,
    i: int,
    upto: int,
)
    requires
        same_shape_seq(a, b),
        0 <= upto <= a.len(),
        0 <= i < a.len(),
    ensures
        count_vis_branch_gt(a, vis, i, upto) == count_vis_branch_gt(b, vis, i, upto),
    decreases upto,
{
    if upto > 0 {
        lemma_count_vis_branch_gt_shape(a, b, vis, i, upto - 1);
        assert(same_shape(a[upto - 1], b[upto - 1]));
        assert(same_shape(a[i], b[i]));
    }
}

/// The compact render-settings bundle: an index bound, the theory-solving
/// toggle, and the top-k instantiation budget, applied as one chain.
#[derive(Clone, Copy, PartialEq, Eq, Structural, Debug)]
pub struct FilterSettings {
    pub max_line_nr: usize,
    pub exclude_theory_inst: bool,
    pub max_instantiations: usize,
}

impl Default for FilterSettings {
    /// Everything shown up to the 250 most expensive instantiations,
    /// theory solving excluded.
    fn default() -> (r: Self)
        ensures
            r == (FilterSettings {
                max_line_nr: usize::MAX,
                exclude_theory_inst: true,
                max_instantiations: 250,
            }),
    {
        FilterSettings { max_line_nr: usize::MAX, exclude_theory_inst: true, max_instantiations: 250 }
    }
}

impl FilterSettings {
    /// The filter chain these settings stand for.
    pub open spec fn chain_spec(&self) -> Seq<Filter> {
        let bound = if self.max_line_nr == usize::MAX {
            usize::MAX
        } else {
            (self.max_line_nr + 1) as usize
        };
        if self.exclude_theory_inst {
            seq![
                Filter::MaxNodeIdx(bound),
                Filter::IgnoreTheorySolving,
                Filter::MaxInsts(self.max_instantiations),
            ]
        } else {
            seq![Filter::MaxNodeIdx(bound), Filter::MaxInsts(self.max_instantiations)]
        }
    }
}

impl InstGraph {
    /// Applies the settings bundle as a chain replay: nodes above the
    /// index bound are hidden, theory instantiations optionally hidden,
    /// then only the configured number of most expensive instantiations
    /// kept.
    pub fn filter(&mut self, settings: FilterSettings) -> (r: Result<
        VisibleInstGraph,
        GraphError,
    >)
        requires
            old(self).wf(),
            old(self).generation < u64::MAX,
        ensures
            final(self).wf(),
            final(self).edges@ == old(self).edges@,
            same_shape_seq(final(self).nodes@, old(self).nodes@),
            match r {
                Ok(vg) => {
                    &&& final(self).vis() == chain_vis(
                        old(self).nodes@,
                        old(self).edges@,
                        all_visible(old(self).n()),
                        settings.chain_spec(),
                    )
                    &&& final(self).generation == old(self).generation + 1
                    &&& snapshot_ok(*final(self), vg)
                },
                Err(_) => false,
            },
    {
        let bound = if settings.max_line_nr == usize::MAX {
            usize::MAX
        } else {
            settings.max_line_nr + 1
        };
        let mut chain: Vec<Filter> = Vec::new();
        chain.push(Filter::MaxNodeIdx(bound));
        if settings.exclude_theory_inst {
            chain.push(Filter::IgnoreTheorySolving);
        }
        chain.push(Filter::MaxInsts(settings.max_instantiations));
        proof {
            assert(chain@ =~= settings.chain_spec());
        }
        let r = self.apply_chain(&chain);
        proof {
            match r {
                Ok(_) => {},
                Err(_) => {
                    assert(forall|t: int|
                        0 <= t < chain@.len() ==> (#[trigger] chain@[t]).valid(old(self).n()));
                    assert(false);
                },
            }
        }
        r
    }
}

impl InstGraph {
    /// Keeps only the `n_keep` highest cost-rank instantiations among the
    /// currently visible nodes, hiding the rest; ties go to the lower
    /// origin index, so the retained set is deterministic.
    pub fn keep_n_most_costly(&mut self, n_keep: usize)
        requires
            old(self).wf(),
        ensures
            final(self).wf(),
            final(self).edges@ == old(self).edges@,
            final(self).generation == old(self).generation,
            same_shape_seq(final(self).nodes@, old(self).nodes@),
            forall|i: int|
                0 <= i < old(self).n() ==> final(self).nodes@[i].disabled == old(
                    self,
                ).nodes@[i].disabled,
            final(self).vis() == step_vis(
                old(self).nodes@,
                old(self).edges@,
                old(self).vis(),
                Filter::MaxInsts(n_keep),
            ),
    {
        let marks = self.marks_max_insts(n_keep);
        self.apply_marks(&marks);
        proof {
            assert(same_shape_seq(self.nodes@, old(self).nodes@));
            crate::graph::lemma_wf_same_shape(*old(self), *self);
            assert(self.vis() =~= step_vis(
                old(self).nodes@,
                old(self).edges@,
                old(self).vis(),
                Filter::MaxInsts(n_keep),
            ));
        }
    }
}

} // verus!
