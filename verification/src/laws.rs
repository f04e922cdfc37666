//! The engine's cross-cutting guarantees, stated and proved over the same
//! spec functions the public contracts use: resetting restores the full
//! graph, chains of hide-only filters narrow monotonically, the cost-rank
//! order is a deterministic total order, and disabling never touches
//! visibility.
use vstd::prelude::*;

use crate::filters::{
    all_visible, chain_vis, count_vis_cost_gt, disable_spec, step_vis, Disabler, Filter,
};
use crate::graph::{cost_order_gt, count_cost_gt, Edge, InstGraph, NodeData};
use crate::visible::{
    count_hidden_children, count_hidden_parents, direct_edges, hidden_connected, snapshot_ok,
    vis_count, VisibleEdge, VisibleEdgeRecord, VisibleInstGraph, VisibleNode,
};

verus! {

/// With everything visible, visible positions coincide with raw indices.
proof fn lemma_vis_count_full(nodes: Seq<NodeData>, i: int)
    requires
        0 <= i <= nodes.len(),
        forall|j: int| 0 <= j < nodes.len() ==> (#[trigger] nodes[j]).visible,
    ensures
        vis_count(nodes, i) == i,
    decreases i,
{
    if i > 0 {
        lemma_vis_count_full(nodes, i - 1);
    }
}

/// With everything visible, no direct neighbour is hidden.
proof fn lemma_hidden_counts_full(nodes: Seq<NodeData>, edges: Seq<Edge>, i: int, upto: int)
    requires
        0 <= upto <= edges.len(),
        crate::graph::edges_wf(nodes.len() as int, edges),
        forall|j: int| 0 <= j < nodes.len() ==> (#[trigger] nodes[j]).visible,
    ensures
        count_hidden_parents(nodes, edges, i, upto) == 0,
        count_hidden_children(nodes, edges, i, upto) == 0,
    decreases upto,
{
    if upto > 0 {
        lemma_hidden_counts_full(nodes, edges, i, upto - 1);
    }
}

/// With everything visible, every raw edge is copied directly.
proof fn lemma_direct_edges_full(nodes: Seq<NodeData>, edges: Seq<Edge>, upto: int)
    requires
        0 <= upto <= edges.len(),
        crate::graph::edges_wf(nodes.len() as int, edges),
        forall|j: int| 0 <= j < nodes.len() ==> (#[trigger] nodes[j]).visible,
    ensures
        direct_edges(nodes, edges, upto).len() == upto,
        forall|k: int|
            0 <= k < upto ==> #[trigger] direct_edges(nodes, edges, upto)[k]
                == (VisibleEdgeRecord {
                from: edges[k].from,
                to: edges[k].to,
                edge: VisibleEdge::Direct(k as usize),
            }),
    decreases upto,
{
    if upto > 0 {
        lemma_direct_edges_full(nodes, edges, upto - 1);
        let e = edges[upto - 1];
        lemma_vis_count_full(nodes, e.from as int);
        lemma_vis_count_full(nodes, e.to as int);
        assert forall|k: int|
            0 <= k < upto implies #[trigger] direct_edges(nodes, edges, upto)[k]
            == (VisibleEdgeRecord {
            from: edges[k].from,
            to: edges[k].to,
            edge: VisibleEdge::Direct(k as usize),
        }) by {
            if k < upto - 1 {
                assert(direct_edges(nodes, edges, upto)[k] == direct_edges(
                    nodes,
                    edges,
                    upto - 1,
                )[k]);
            }
        }
    }
}

/// Resetting is idempotent: an empty chain replayed on a reset graph
/// leaves every flag set, and the snapshot taken then holds every
/// original node (with no hidden neighbours) and every original edge as a
/// direct edge, with no indirect edge synthesized. The matching
/// `apply_chain` contract adds that the generation counter has been
/// incremented, whatever the prior filter history was.
pub proof fn lemma_reset_restores_everything(g: InstGraph, vg: VisibleInstGraph)
    requires
        g.topo_wf(),
        g.vis() == all_visible(g.n()),
        snapshot_ok(g, vg),
    ensures
        chain_vis(g.nodes@, g.edges@, all_visible(g.n()), Seq::<Filter>::empty()) == all_visible(
            g.n(),
        ),
        vg.nodes@.len() == g.n(),
        forall|i: int|
            0 <= i < g.n() ==> #[trigger] vg.nodes@[i] == (VisibleNode {
                idx: i as usize,
                hidden_parents: 0,
                hidden_children: 0,
            }),
        vg.edges@.len() == g.m(),
        forall|k: int|
            0 <= k < g.m() ==> #[trigger] vg.edges@[k] == (VisibleEdgeRecord {
                from: g.edges@[k].from,
                to: g.edges@[k].to,
                edge: VisibleEdge::Direct(k as usize),
            }),
{
    assert forall|j: int| 0 <= j < g.nodes@.len() implies (#[trigger] g.nodes@[j]).visible by {
        assert(g.vis()[j]);
    }
    lemma_vis_count_full(g.nodes@, g.n());
    assert forall|i: int|
        0 <= i < g.n() implies #[trigger] vg.nodes@[i] == (VisibleNode {
        idx: i as usize,
        hidden_parents: 0,
        hidden_children: 0,
    }) by {
        lemma_vis_count_full(g.nodes@, i);
        lemma_hidden_counts_full(g.nodes@, g.edges@, i, g.m());
    }
    lemma_direct_edges_full(g.nodes@, g.edges@, g.m());
    let dlen = direct_edges(g.nodes@, g.edges@, g.m()).len() as int;
    assert(vg.edges@.len() == g.m()) by {
        if vg.edges@.len() > dlen {
            let j = dlen;
            assert(crate::visible::indirect_rec_ok(g.nodes@, g.edges@, vg.edges@[j]));
            let (a, d) = choose|a: int, d: int|
                {
                    &&& 0 <= a < g.nodes@.len()
                    &&& 0 <= d < g.nodes@.len()
                    &&& (#[trigger] vis_count(g.nodes@, a)) == vg.edges@[j].from
                    &&& (#[trigger] vis_count(g.nodes@, d)) == vg.edges@[j].to
                    &&& g.nodes@[a].visible
                    &&& g.nodes@[d].visible
                    &&& hidden_connected(g.nodes@, g.edges@, a, d)
                    &&& match vg.edges@[j].edge {
                        VisibleEdge::Indirect(p) => crate::visible::indirect_path_ok(
                            g.nodes@,
                            g.edges@,
                            p@,
                            a,
                            d,
                        ),
                        VisibleEdge::Direct(_) => false,
                    }
                };
            let h = choose|h: int|
                0 <= h < g.nodes@.len() && #[trigger] crate::visible::hreach(
                    g.nodes@,
                    g.edges@,
                    a,
                    h,
                ) && crate::graph::is_edge(g.edges@, h, d);
            let p = choose|p: Seq<int>|
                {
                    &&& crate::reach::valid_path(g.nodes@.len() as int, g.edges@, p)
                    &&& p.len() >= 2
                    &&& p.first() == a
                    &&& p.last() == h
                    &&& forall|j2: int| 1 <= j2 < p.len() ==> !g.nodes@[#[trigger] p[j2]].visible
                };
            assert(!g.nodes@[p[p.len() - 1]].visible);
            assert(false);
        }
    }
    assert forall|k: int|
        0 <= k < g.m() implies #[trigger] vg.edges@[k] == (VisibleEdgeRecord {
        from: g.edges@[k].from,
        to: g.edges@[k].to,
        edge: VisibleEdge::Direct(k as usize),
    }) by {
        assert(vg.edges@[k] == vg.edges@.subrange(0, dlen)[k]);
    }
}

/// The filters that only ever hide nodes.
pub open spec fn narrowing(f: Filter) -> bool {
    match f {
        Filter::MaxNodeIdx(_) => true,
        Filter::MinNodeIdx(_) => true,
        Filter::IgnoreTheorySolving => true,
        Filter::MaxInsts(_) => true,
        Filter::MaxDepth(_) => true,
        _ => false,
    }
}

/// One narrowing step keeps a node only if it was visible before.
proof fn lemma_step_narrows(
    nodes: Seq<NodeData>,
    edges: Seq<Edge>,
    vis: Seq<bool>,
    f: Filter,
    i: int,
)
    requires
        narrowing(f),
        0 <= i < vis.len(),
    ensures
        step_vis(nodes, edges, vis, f)[i] ==> vis[i],
{
}

/// A replay splits at any point into replaying the prefix and then the
/// suffix.
proof fn lemma_chain_vis_split(
    nodes: Seq<NodeData>,
    edges: Seq<Edge>,
    vis: Seq<bool>,
    fs: Seq<Filter>,
    t: int,
)
    requires
        0 <= t <= fs.len(),
    ensures
        chain_vis(nodes, edges, vis, fs) == chain_vis(
            nodes,
            edges,
            chain_vis(nodes, edges, vis, fs.take(t)),
            fs.skip(t),
        ),
    decreases t,
{
    if t == 0 {
        assert(fs.take(0) =~= Seq::<Filter>::empty());
        assert(fs.skip(0) =~= fs);
    } else {
        let vis2 = step_vis(nodes, edges, vis, fs.first());
        lemma_chain_vis_split(nodes, edges, vis2, fs.drop_first(), t - 1);
        assert(fs.take(t).first() == fs.first());
        assert(fs.take(t).drop_first() =~= fs.drop_first().take(t - 1));
        assert(fs.skip(t) =~= fs.drop_first().skip(t - 1));
    }
}

/// A chain of narrowing filters keeps a node only if it started visible.
proof fn lemma_chain_narrows(nodes: Seq<NodeData>, edges: Seq<Edge>, vis: Seq<bool>, fs: Seq<Filter>)
    requires
        forall|t: int| 0 <= t < fs.len() ==> narrowing(#[trigger] fs[t]),
    ensures
        forall|i: int| 0 <= i < vis.len() ==> #[trigger] chain_vis(nodes, edges, vis, fs)[i]
            ==> vis[i],
    decreases fs.len(),
{
    if fs.len() > 0 {
        let vis2 = step_vis(nodes, edges, vis, fs.first());
        assert(narrowing(fs[0]));
        assert forall|t: int| 0 <= t < fs.drop_first().len() implies narrowing(
            #[trigger] fs.drop_first()[t],
        ) by {
            assert(fs.drop_first()[t] == fs[t + 1]);
        }
        lemma_chain_narrows(nodes, edges, vis2, fs.drop_first());
        assert forall|i: int|
            0 <= i < vis.len() && #[trigger] chain_vis(nodes, edges, vis, fs)[i] implies vis[i] by {
            assert(chain_vis(nodes, edges, vis, fs) == chain_vis(nodes, edges, vis2, fs.drop_first()));
            assert(vis2[i]);
            lemma_step_narrows(nodes, edges, vis, fs.first(), i);
        }
    }
}

/// Monotonic narrowing: for a chain of hide-only filters, the visible set
/// after the whole chain is a subset of the visible set after any prefix
/// of it.
pub proof fn lemma_monotonic_narrowing(
    nodes: Seq<NodeData>,
    edges: Seq<Edge>,
    vis: Seq<bool>,
    fs: Seq<Filter>,
    t: int,
)
    requires
        forall|t2: int| 0 <= t2 < fs.len() ==> narrowing(#[trigger] fs[t2]),
        0 <= t <= fs.len(),
        vis.len() == nodes.len(),
    ensures
        forall|i: int|
            0 <= i < vis.len() && #[trigger] chain_vis(nodes, edges, vis, fs)[i] ==> chain_vis(
                nodes,
                edges,
                vis,
                fs.take(t),
            )[i],
{
    lemma_chain_vis_split(nodes, edges, vis, fs, t);
    let mid = chain_vis(nodes, edges, vis, fs.take(t));
    assert forall|t2: int| 0 <= t2 < fs.skip(t).len() implies narrowing(
        #[trigger] fs.skip(t)[t2],
    ) by {
        assert(fs.skip(t)[t2] == fs[t + t2]);
    }
    lemma_chain_vis_len(nodes, edges, vis, fs.take(t));
    lemma_chain_narrows(nodes, edges, mid, fs.skip(t));
}

/// Replaying never changes how many flags there are.
proof fn lemma_chain_vis_len(nodes: Seq<NodeData>, edges: Seq<Edge>, vis: Seq<bool>, fs: Seq<Filter>)
    ensures
        chain_vis(nodes, edges, vis, fs).len() == vis.len(),
    decreases fs.len(),
{
    if fs.len() > 0 {
        lemma_chain_vis_len(nodes, edges, step_vis(nodes, edges, vis, fs.first()), fs.drop_first());
    }
}

/// Counting strictly-higher-ranking nodes is strictly monotone across a
/// cost tie broken by index.
proof fn lemma_count_cost_gt_tie(nodes: Seq<NodeData>, i: int, j: int, upto: int)
    requires
        0 <= i < j < nodes.len(),
        nodes[i].cost == nodes[j].cost,
        0 <= upto <= nodes.len(),
    ensures
        upto <= i ==> count_cost_gt(nodes, i, upto) <= count_cost_gt(nodes, j, upto),
        upto > i ==> count_cost_gt(nodes, i, upto) < count_cost_gt(nodes, j, upto),
    decreases upto,
{
    if upto > 0 {
        lemma_count_cost_gt_tie(nodes, i, j, upto - 1);
        let u = upto - 1;
        if u == i {
            assert(cost_order_gt(nodes, u, j));
            assert(!cost_order_gt(nodes, u, i));
        } else {
            if cost_order_gt(nodes, u, i) {
                assert(cost_order_gt(nodes, u, j));
            }
        }
    }
}

/// Cost-rank total order determinism, tie-break half: of two nodes with
/// equal cost, the one with the lower origin index always ranks strictly
/// higher (carries the smaller rank).
pub proof fn lemma_cost_rank_tiebreak(g: InstGraph, i: int, j: int)
    requires
        g.wf(),
        0 <= i < j < g.n(),
        g.nodes@[i].cost == g.nodes@[j].cost,
    ensures
        g.nodes@[i].cost_rank < g.nodes@[j].cost_rank,
{
    lemma_count_cost_gt_tie(g.nodes@, i, j, g.n());
}

/// Counting visible higher-ranking instantiations is monotone in the
/// visible set.
proof fn lemma_count_vis_cost_gt_mono(
    nodes: Seq<NodeData>,
    vis1: Seq<bool>,
    vis2: Seq<bool>,
    i: int,
    upto: int,
)
    requires
        forall|u: int| 0 <= u < upto ==> #[trigger] vis1[u] ==> vis2[u],
        0 <= upto,
    ensures
        count_vis_cost_gt(nodes, vis1, i, upto) <= count_vis_cost_gt(nodes, vis2, i, upto),
    decreases upto,
{
    if upto > 0 {
        lemma_count_vis_cost_gt_mono(nodes, vis1, vis2, i, upto - 1);
    }
}

/// Cost-rank total order determinism, stability half: retaining the top
/// instantiations twice in a row keeps exactly the set the first
/// application kept.
pub proof fn lemma_max_insts_idempotent(
    nodes: Seq<NodeData>,
    edges: Seq<Edge>,
    vis: Seq<bool>,
    n_keep: usize,
)
    requires
        vis.len() == nodes.len(),
    ensures
        step_vis(nodes, edges, step_vis(nodes, edges, vis, Filter::MaxInsts(n_keep)), Filter::MaxInsts(n_keep))
            == step_vis(nodes, edges, vis, Filter::MaxInsts(n_keep)),
{
    let v1 = step_vis(nodes, edges, vis, Filter::MaxInsts(n_keep));
    let v2 = step_vis(nodes, edges, v1, Filter::MaxInsts(n_keep));
    assert forall|i: int| 0 <= i < v1.len() implies v2[i] == v1[i] by {
        if v1[i] {
            assert forall|u: int| 0 <= u < nodes.len() && #[trigger] v1[u] implies vis[u] by {}
            lemma_count_vis_cost_gt_mono(nodes, v1, vis, i, nodes.len() as int);
        }
    }
    assert(v2 =~= v1);
}

/// Disabling independence: whatever two disabler sets are applied, the
/// visible flags stay exactly those of the underlying graph; only the
/// derived disabled marks differ.
pub proof fn lemma_disabling_independent(
    g: InstGraph,
    g1: InstGraph,
    g2: InstGraph,
    d1: Seq<Disabler>,
    d2: Seq<Disabler>,
)
    requires
        g1.nodes@.len() == g.nodes@.len(),
        g2.nodes@.len() == g.nodes@.len(),
        forall|i: int|
            0 <= i < g.nodes@.len() ==> #[trigger] g1.nodes@[i] == (NodeData {
                disabled: exists|k: int|
                    0 <= k < d1.len() && disable_spec(#[trigger] d1[k], g.nodes@, i),
                ..g.nodes@[i]
            }),
        forall|i: int|
            0 <= i < g.nodes@.len() ==> #[trigger] g2.nodes@[i] == (NodeData {
                disabled: exists|k: int|
                    0 <= k < d2.len() && disable_spec(#[trigger] d2[k], g.nodes@, i),
                ..g.nodes@[i]
            }),
    ensures
        g1.vis() == g.vis(),
        g2.vis() == g.vis(),
        g1.vis() == g2.vis(),
{
    assert(g1.vis() =~= g.vis());
    assert(g2.vis() =~= g.vis());
}

} // verus!
