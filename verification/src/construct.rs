//! Construction of the raw graph from the fact store's dependency list:
//! one node per distinct target line, one edge per dependency with a
//! defined source, then the metadata pass. A dependency list whose edges
//! would not point forward in discovery order, or that references a
//! source line with no node, is a fact-store fault and is rejected whole.
use vstd::prelude::*;

use crate::graph::{clone_name, sem_eq_seq, Edge, EdgeKind, GraphError, InstGraph, NodeData, NodeKind};
use crate::items::{InstIdx, QuantIdx};
use std::collections::HashMap;

verus! {

broadcast use vstd::std_specs::hash::group_hash_axioms;

/// One entry of the fact store's dependency list, the input to raw-graph
/// construction. Lines are trace line numbers; 0 stands for "no
/// predecessor".
#[derive(Clone, Debug)]
pub struct Dependency {
    /// Line of the entity this dependency comes from; 0 when the target
    /// has no predecessor.
    pub from: usize,
    /// Line of the instantiation this dependency feeds, if defined.
    pub to: Option<usize>,
    /// The quantifier of the target instantiation, `None` when it was
    /// discovered without one.
    pub quant: Option<QuantIdx>,
    /// Whether the target was discovered by theory solving.
    pub quant_discovered: bool,
    /// Display name of the quantifier, where it has one.
    pub quant_name: Option<String>,
    /// Cost attributed to the target instantiation.
    pub cost: u64,
    /// Classification of the causal link.
    pub kind: EdgeKind,
}

/// The distinct target lines of the first `upto` dependencies, in first
/// occurrence order: one raw node is created per entry.
pub open spec fn dep_lines(deps: Seq<Dependency>, upto: int) -> Seq<usize>
    decreases upto,
{
    if upto <= 0 {
        Seq::empty()
    } else {
        let r = dep_lines(deps, upto - 1);
        match deps[upto - 1].to {
            Some(t) => if r.contains(t) {
                r
            } else {
                r.push(t)
            },
            None => r,
        }
    }
}

/// The node records created for the first `upto` dependencies: fresh
/// instantiation nodes carrying the data of the first dependency that
/// names each line.
pub open spec fn dep_nodes(deps: Seq<Dependency>, upto: int) -> Seq<NodeData>
    decreases upto,
{
    if upto <= 0 {
        Seq::empty()
    } else {
        let r = dep_nodes(deps, upto - 1);
        let lines = dep_lines(deps, upto - 1);
        match deps[upto - 1].to {
            Some(t) => if lines.contains(t) {
                r
            } else {
                r.push(
                    NodeData::spec_fresh(
                        NodeKind::Instantiation(InstIdx(r.len() as usize)),
                        deps[upto - 1].cost,
                        deps[upto - 1].quant_discovered,
                        deps[upto - 1].quant,
                        deps[upto - 1].quant_name,
                    ),
                )
            },
            None => r,
        }
    }
}

/// The position of a line among the created nodes, scanning from the most
/// recently created one. For the duplicate-free sequences produced by
/// `dep_lines` this is the unique position of `x`.
pub open spec fn pos_of(lines: Seq<usize>, x: usize) -> int
    decreases lines.len(),
{
    if lines.len() == 0 {
        0
    } else if lines[lines.len() - 1] == x {
        lines.len() - 1
    } else {
        pos_of(lines.drop_last(), x)
    }
}

/// The edges created for the first `upto` dependencies, with lines mapped
/// to node indices through `lines`.
pub open spec fn dep_edges(deps: Seq<Dependency>, lines: Seq<usize>, upto: int) -> Seq<Edge>
    decreases upto,
{
    if upto <= 0 {
        Seq::empty()
    } else {
        let r = dep_edges(deps, lines, upto - 1);
        let d = deps[upto - 1];
        match d.to {
            Some(t) => if d.from > 0 {
                r.push(
                    Edge {
                        from: pos_of(lines, d.from) as usize,
                        to: pos_of(lines, t) as usize,
                        kind: d.kind,
                    },
                )
            } else {
                r
            },
            None => r,
        }
    }
}

/// The fact store is self-consistent: every defined source line has a node
/// and every dependency points forward in discovery order.
pub open spec fn deps_consistent(deps: Seq<Dependency>, lines: Seq<usize>) -> bool {
    forall|j: int|
        0 <= j < deps.len() ==> match (#[trigger] deps[j]).to {
            Some(t) => deps[j].from > 0 ==> lines.contains(deps[j].from) && pos_of(
                lines,
                deps[j].from,
            ) < pos_of(lines, t),
            None => true,
        }
}

/// `pos_of` recovers the position of any element of a duplicate-free
/// sequence.
proof fn lemma_pos_of(lines: Seq<usize>, w: int)
    requires
        0 <= w < lines.len(),
        forall|i1: int, i2: int| 0 <= i1 < i2 < lines.len() ==> lines[i1] != lines[i2],
    ensures
        pos_of(lines, lines[w]) == w,
    decreases lines.len(),
{
    if w < lines.len() - 1 {
        let dl = lines.drop_last();
        assert forall|i: int| 0 <= i < dl.len() implies dl[i] == lines[i] by {}
        lemma_pos_of(dl, w);
    }
}

/// `dep_lines` and `dep_nodes` create entries in step.
proof fn lemma_dep_nodes_len(deps: Seq<Dependency>, upto: int)
    requires
        0 <= upto <= deps.len(),
    ensures
        dep_nodes(deps, upto).len() == dep_lines(deps, upto).len(),
    decreases upto,
{
    if upto > 0 {
        lemma_dep_nodes_len(deps, upto - 1);
    }
}

/// A shorter `dep_lines` prefix agrees pointwise with a longer one.
proof fn lemma_dep_lines_prefix(deps: Seq<Dependency>, u: int, upto: int)
    requires
        0 <= u <= upto <= deps.len(),
    ensures
        dep_lines(deps, u).len() <= dep_lines(deps, upto).len(),
        forall|i: int|
            0 <= i < dep_lines(deps, u).len() ==> #[trigger] dep_lines(deps, u)[i] == dep_lines(
                deps,
                upto,
            )[i],
    decreases upto - u,
{
    if u < upto {
        lemma_dep_lines_prefix(deps, u, upto - 1);
        let prev = dep_lines(deps, upto - 1);
        let cur = dep_lines(deps, upto);
        assert forall|i: int| 0 <= i < prev.len() implies prev[i] == cur[i] by {}
    }
}

/// The lines collected by `dep_lines` are pairwise distinct.
proof fn lemma_dep_lines_distinct(deps: Seq<Dependency>, upto: int)
    requires
        0 <= upto <= deps.len(),
    ensures
        forall|i1: int, i2: int|
            0 <= i1 < i2 < dep_lines(deps, upto).len() ==> dep_lines(deps, upto)[i1] != dep_lines(
                deps,
                upto,
            )[i2],
    decreases upto,
{
    if upto > 0 {
        lemma_dep_lines_distinct(deps, upto - 1);
        let prev = dep_lines(deps, upto - 1);
        let cur = dep_lines(deps, upto);
        assert forall|i1: int, i2: int| 0 <= i1 < i2 < cur.len() implies cur[i1] != cur[i2] by {
            if i2 < prev.len() {
                assert(cur[i1] == prev[i1] && cur[i2] == prev[i2]);
            } else {
                // Here an uncontained line was appended; the older entries
                // all differ from it.
                let t = deps[upto - 1].to->0;
                assert(cur[i1] == prev[i1] && cur[i2] == t);
                if prev[i1] == t {
                    assert(prev.contains(t));
                }
            }
        }
    }
}

/// A line named as a target within the first `upto` dependencies is among
/// `dep_lines(deps, upto)`.
proof fn lemma_dep_lines_contains(deps: Seq<Dependency>, upto: int, j: int)
    requires
        0 <= j < upto <= deps.len(),
        deps[j].to is Some,
    ensures
        dep_lines(deps, upto).contains(deps[j].to->0),
    decreases upto,
{
    let t = deps[j].to->0;
    if j < upto - 1 {
        lemma_dep_lines_contains(deps, upto - 1, j);
        lemma_dep_lines_prefix(deps, upto - 1, upto);
        let prev = dep_lines(deps, upto - 1);
        let cur = dep_lines(deps, upto);
        assert forall|i: int| 0 <= i < prev.len() implies prev[i] == cur[i] by {}
        assert(cur.contains(t));
    } else {
        let cur = dep_lines(deps, upto);
        let prev = dep_lines(deps, upto - 1);
        if !prev.contains(t) {
            assert(cur[cur.len() - 1] == t);
        }
    }
}

impl InstGraph {
    /// First construction pass: one fresh instantiation node per distinct
    /// target line, and the line-to-index map.
    #[verifier::loop_isolation(false)]
    #[verifier::rlimit(40)]
    fn build_dep_nodes(deps: &Vec<Dependency>) -> (r: (InstGraph, HashMap<usize, usize>))
        ensures
            ({
                let (g, map) = r;
                let lines = dep_lines(deps@, deps@.len() as int);
                &&& g.nodes@ == dep_nodes(deps@, deps@.len() as int)
                &&& g.nodes@.len() == lines.len()
                &&& g.edges@.len() == 0
                &&& g.generation == 0
                &&& forall|x: usize|
                    map@.contains_key(x) ==> 0 <= map@[x] < lines.len() && lines[map@[x] as int]
                        == x
                &&& forall|idx: int|
                    0 <= idx < lines.len() ==> map@.contains_key(#[trigger] lines[idx])
                        && map@[lines[idx]] == idx
            }),
    {
        let n_deps = deps.len();
        let mut g = InstGraph::new();
        let mut map: HashMap<usize, usize> = HashMap::new();
        let mut j: usize = 0;
        while j < n_deps
            invariant
                j <= n_deps,
                g.nodes@ == dep_nodes(deps@, j as int),
                g.nodes@.len() == dep_lines(deps@, j as int).len(),
                g.edges@.len() == 0,
                g.generation == 0,
                forall|x: usize|
                    map@.contains_key(x) ==> 0 <= map@[x] < dep_lines(deps@, j as int).len()
                        && dep_lines(deps@, j as int)[map@[x] as int] == x,
                forall|idx: int|
                    0 <= idx < dep_lines(deps@, j as int).len() ==> map@.contains_key(
                        #[trigger] dep_lines(deps@, j as int)[idx],
                    ) && map@[dep_lines(deps@, j as int)[idx]] == idx,
            decreases n_deps - j,
        {
            let ghost prev = dep_lines(deps@, j as int);
            let ghost cur = dep_lines(deps@, j + 1);
            let d = &deps[j];
            if let Some(t) = d.to {
                if !map.contains_key(&t) {
                    proof {
                        // The map and the spec lines agree on membership, so
                        // this line really is new.
                        assert(!prev.contains(t));
                        assert(cur == prev.push(t));
                    }
                    let idx = g.add_node(
                        NodeData::new(
                            NodeKind::Instantiation(InstIdx(g.nodes.len())),
                            d.cost,
                            d.quant_discovered,
                            d.quant,
                            clone_name(&d.quant_name),
                        ),
                    );
                    map.insert(t, idx);
                } else {
                    proof {
                        assert(prev.contains(t)) by {
                            assert(prev[map@[t] as int] == t);
                        }
                        assert(cur == prev);
                    }
                }
            }
            j = j + 1;
        }
        (g, map)
    }

    /// Second construction pass: one edge per dependency with a defined
    /// source, rejecting inconsistent references.
    #[verifier::loop_isolation(false)]
    #[verifier::rlimit(40)]
    fn build_dep_edges(
        &mut self,
        deps: &Vec<Dependency>,
        map: &HashMap<usize, usize>,
    ) -> (r: Result<(), GraphError>)
        requires
            ({
                let lines = dep_lines(deps@, deps@.len() as int);
                &&& old(self).nodes@.len() == lines.len()
                &&& old(self).edges@.len() == 0
                &&& forall|x: usize|
                    map@.contains_key(x) ==> 0 <= map@[x] < lines.len() && lines[map@[x] as int]
                        == x
                &&& forall|idx: int|
                    0 <= idx < lines.len() ==> map@.contains_key(#[trigger] lines[idx])
                        && map@[lines[idx]] == idx
            }),
        ensures
            final(self).nodes@ == old(self).nodes@,
            final(self).generation == old(self).generation,
            match r {
                Ok(()) => {
                    &&& deps_consistent(deps@, dep_lines(deps@, deps@.len() as int))
                    &&& final(self).edges@ == dep_edges(
                        deps@,
                        dep_lines(deps@, deps@.len() as int),
                        deps@.len() as int,
                    )
                    &&& final(self).topo_wf()
                },
                Err(e) => {
                    &&& e == GraphError::InconsistentDependencies
                    &&& !deps_consistent(deps@, dep_lines(deps@, deps@.len() as int))
                },
            },
    {
        let n_deps = deps.len();
        let ghost lines = dep_lines(deps@, n_deps as int);
        proof {
            lemma_dep_lines_distinct(deps@, n_deps as int);
        }
        let mut j: usize = 0;
        while j < n_deps
            invariant
                j <= n_deps,
                self.nodes@ == old(self).nodes@,
                self.nodes@.len() == lines.len(),
                self.edges@ == dep_edges(deps@, lines, j as int),
                self.topo_wf(),
                self.generation == old(self).generation,
                forall|j2: int|
                    0 <= j2 < j ==> match (#[trigger] deps@[j2]).to {
                        Some(t) => deps@[j2].from > 0 ==> lines.contains(deps@[j2].from) && pos_of(
                            lines,
                            deps@[j2].from,
                        ) < pos_of(lines, t),
                        None => true,
                    },
            decreases n_deps - j,
        {
            let d = &deps[j];
            if let Some(t) = d.to {
                if d.from > 0 {
                    proof {
                        lemma_dep_lines_distinct(deps@, n_deps as int);
                        lemma_dep_lines_contains(deps@, n_deps as int, j as int);
                    }
                    let ti = match map.get(&t) {
                        Some(ti_ref) => *ti_ref,
                        None => unreached(),
                    };
                    proof {
                        lemma_dep_lines_distinct(deps@, n_deps as int);
                        assert(lines[map@[t] as int] == t);
                        lemma_pos_of(lines, map@[t] as int);
                    }
                    match map.get(&d.from) {
                        Some(fi_ref) => {
                            let fi = *fi_ref;
                            proof {
                                lemma_dep_lines_distinct(deps@, n_deps as int);
                                assert(lines[map@[d.from] as int] == d.from);
                                lemma_pos_of(lines, map@[d.from] as int);
                                assert(lines.contains(d.from)) by {
                                    assert(lines[map@[d.from] as int] == d.from);
                                }
                            }
                            if fi < ti {
                                self.add_edge(fi, ti, d.kind);
                            } else {
                                return Err(GraphError::InconsistentDependencies);
                            }
                        },
                        None => {
                            proof {
                                // No node for the source line: were the data
                                // consistent, the line would be among the
                                // created ones and hence in the map.
                                assert(!lines.contains(d.from));
                            }
                            return Err(GraphError::InconsistentDependencies);
                        },
                    }
                }
            }
            j = j + 1;
        }
        Ok(())
    }

    /// Builds the raw graph from the fact store's dependency list: one
    /// node per distinct target line (carrying the first dependency's
    /// data), one edge per dependency with a defined source, then the
    /// metadata pass. Inputs whose edges would not point forward in
    /// discovery order, or that reference a source line with no node, are
    /// a fact-store fault and are rejected whole.
    pub fn from_dependencies(deps: &Vec<Dependency>) -> (r: Result<InstGraph, GraphError>)
        ensures
            match r {
                Ok(g) => {
                    &&& deps_consistent(deps@, dep_lines(deps@, deps@.len() as int))
                    &&& g.wf()
                    &&& g.generation == 0
                    &&& sem_eq_seq(g.nodes@, dep_nodes(deps@, deps@.len() as int))
                    &&& g.edges@ == dep_edges(
                        deps@,
                        dep_lines(deps@, deps@.len() as int),
                        deps@.len() as int,
                    )
                },
                Err(e) => {
                    &&& e == GraphError::InconsistentDependencies
                    &&& !deps_consistent(deps@, dep_lines(deps@, deps@.len() as int))
                },
            },
    {
        let (mut g, map) = Self::build_dep_nodes(deps);
        match g.build_dep_edges(deps, &map) {
            Ok(()) => {
                g.finalize();
                Ok(g)
            },
            Err(e) => Err(e),
        }
    }
}


} // verus!
