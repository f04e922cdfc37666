//! End-to-end scenarios for the filter engine and the materializer.
use inst_graph::filters::{Filter, FilterOutput};
use inst_graph::graph::{EdgeKind, InstGraph, NodeData, NodeKind};
use inst_graph::items::{InstIdx, QuantIdx};
use inst_graph::visible::VisibleEdge;

fn inst_node(i: usize, cost: u64) -> NodeData {
    NodeData::new(
        NodeKind::Instantiation(InstIdx(i)),
        cost,
        false,
        Some(QuantIdx(0)),
        None,
    )
}

fn enode(i: usize) -> NodeData {
    NodeData::new(NodeKind::ENode(inst_graph::items::ENodeIdx(i)), 0, false, None, None)
}

/// Three instantiations in a chain; keeping the two most expensive must
/// keep the cost-5 pair (tie broken towards the lower index), drop the
/// cheap one entirely, and not reconnect around it.
#[test]
fn max_insts_keeps_cost_ties_by_index() {
    let mut g = InstGraph::new();
    g.add_node(inst_node(0, 5));
    g.add_node(inst_node(1, 5));
    g.add_node(inst_node(2, 1));
    g.add_edge(0, 1, EdgeKind::Yield);
    g.add_edge(1, 2, EdgeKind::Yield);
    g.finalize();

    let vg = g.apply_chain(&vec![Filter::MaxInsts(2)]).unwrap();
    assert_eq!(vg.node_count(), 2);
    assert_eq!(vg.nodes[0].idx, 0);
    assert_eq!(vg.nodes[1].idx, 1);
    assert!(vg.contains(0));
    assert!(vg.contains(1));
    assert!(!vg.contains(2));
    assert_eq!(vg.edge_count(), 1);
    assert_eq!(vg.edges[0].from, 0);
    assert_eq!(vg.edges[0].to, 1);
    assert_eq!(vg.edges[0].edge, VisibleEdge::Direct(0));
}

/// A chain A -> B -> C -> D with B and C hidden pass-through e-nodes must
/// materialize exactly one indirect edge from A to D whose payload lists
/// all three raw edges of the hidden chain.
#[test]
fn hidden_chain_becomes_one_indirect_edge() {
    let mut g = InstGraph::new();
    g.add_node(inst_node(0, 9));
    g.add_node(enode(0));
    g.add_node(enode(1));
    g.add_node(inst_node(3, 7));
    g.add_edge(0, 1, EdgeKind::Yield);
    g.add_edge(1, 2, EdgeKind::EqualityFact);
    g.add_edge(2, 3, EdgeKind::Blame { trigger_term: 0 });
    g.finalize();

    // Keeping the two instantiations hides both e-nodes.
    let vg = g.apply_chain(&vec![Filter::MaxInsts(2)]).unwrap();
    assert_eq!(vg.node_count(), 2);
    assert_eq!(vg.nodes[0].idx, 0);
    assert_eq!(vg.nodes[1].idx, 3);
    assert_eq!(vg.nodes[0].hidden_children, 1);
    assert_eq!(vg.nodes[1].hidden_parents, 1);
    assert_eq!(vg.edge_count(), 1);
    assert_eq!(vg.edges[0].from, 0);
    assert_eq!(vg.edges[0].to, 1);
    match &vg.edges[0].edge {
        VisibleEdge::Indirect(path) => assert_eq!(path.clone(), vec![0, 1, 2]),
        VisibleEdge::Direct(_) => panic!("expected an indirect edge"),
    }
    assert!(vg.edges[0].edge.is_indirect());
}

/// Two disjoint hidden paths between the same visible pair must still
/// yield exactly one indirect edge.
#[test]
fn converging_hidden_paths_are_not_duplicated() {
    let mut g = InstGraph::new();
    g.add_node(inst_node(0, 9));
    g.add_node(enode(0));
    g.add_node(enode(1));
    g.add_node(inst_node(3, 7));
    g.add_edge(0, 1, EdgeKind::Yield);
    g.add_edge(0, 2, EdgeKind::Yield);
    g.add_edge(1, 3, EdgeKind::Blame { trigger_term: 0 });
    g.add_edge(2, 3, EdgeKind::Blame { trigger_term: 1 });
    g.finalize();

    let vg = g.apply_chain(&vec![Filter::MaxInsts(2)]).unwrap();
    assert_eq!(vg.node_count(), 2);
    assert_eq!(vg.edge_count(), 1);
    assert_eq!(vg.edges[0].from, 0);
    assert_eq!(vg.edges[0].to, 1);
    match &vg.edges[0].edge {
        VisibleEdge::Indirect(path) => assert_eq!(path.clone(), vec![0, 2]),
        VisibleEdge::Direct(_) => panic!("expected an indirect edge"),
    }
}

/// The longest path through the sink of a diamond is deterministic: of
/// the two equal-length branches, the one through the smaller origin
/// index wins.
#[test]
fn longest_path_prefers_smaller_intermediate() {
    let mut g = InstGraph::new();
    g.add_node(inst_node(0, 1));
    g.add_node(inst_node(1, 1));
    g.add_node(inst_node(2, 1));
    g.add_node(inst_node(3, 1));
    g.add_edge(0, 1, EdgeKind::Yield);
    g.add_edge(0, 2, EdgeKind::Yield);
    g.add_edge(1, 3, EdgeKind::Yield);
    g.add_edge(2, 3, EdgeKind::Yield);
    g.finalize();

    let out = Filter::ShowLongestPath(3).apply(&mut g).unwrap();
    match out {
        FilterOutput::LongestPath(path) => assert_eq!(path, vec![0, 1, 3]),
        FilterOutput::Nothing => panic!("expected a path"),
    }
    let vg = g.to_visible();
    assert_eq!(vg.node_count(), 3);
    assert!(vg.contains(0));
    assert!(vg.contains(1));
    assert!(!vg.contains(2));
    assert!(vg.contains(3));
}

/// Resetting after an aggressive filter history restores every node and
/// every edge and bumps the generation each time.
#[test]
fn reset_restores_full_graph() {
    let mut g = InstGraph::new();
    g.add_node(inst_node(0, 5));
    g.add_node(inst_node(1, 4));
    g.add_node(inst_node(2, 3));
    g.add_edge(0, 1, EdgeKind::Yield);
    g.add_edge(1, 2, EdgeKind::Yield);
    g.finalize();

    let narrowed = g.apply_chain(&vec![Filter::MaxInsts(1)]).unwrap();
    assert_eq!(narrowed.node_count(), 1);
    assert_eq!(narrowed.generation, 1);

    let restored = g.reset();
    assert_eq!(restored.generation, 2);
    assert_eq!(restored.node_count(), 3);
    assert_eq!(restored.edge_count(), 2);

    let replayed = g.apply_chain(&vec![]).unwrap();
    assert_eq!(replayed.generation, 3);
    assert_eq!(replayed.node_count(), 3);
    assert_eq!(replayed.edge_count(), 2);
    for k in 0..2 {
        assert_eq!(replayed.edges[k].edge, VisibleEdge::Direct(k));
    }
}

/// A chain of hide-only filters narrows monotonically: the full chain's
/// visible set is a subset of any prefix's.
#[test]
fn narrowing_chain_is_monotone() {
    let mut g = InstGraph::new();
    g.add_node(inst_node(0, 5));
    g.add_node({
        let mut n = inst_node(1, 9);
        n.is_theory_inst = true;
        n
    });
    g.add_node(inst_node(2, 2));
    g.add_node(inst_node(3, 7));
    g.add_edge(0, 1, EdgeKind::Yield);
    g.add_edge(1, 2, EdgeKind::Yield);
    g.add_edge(2, 3, EdgeKind::Yield);
    g.finalize();

    let chain = vec![
        Filter::IgnoreTheorySolving,
        Filter::MaxDepth(10),
        Filter::MaxInsts(2),
    ];
    let full: Vec<usize> = {
        let vg = g.apply_chain(&chain).unwrap();
        vg.nodes.iter().map(|n| n.idx).collect()
    };
    for take in 0..chain.len() {
        let prefix: Vec<Filter> = chain[..take].to_vec();
        let vg = g.apply_chain(&prefix).unwrap();
        let prefix_nodes: Vec<usize> = vg.nodes.iter().map(|n| n.idx).collect();
        for idx in &full {
            assert!(prefix_nodes.contains(idx), "prefix lost node {idx}");
        }
    }
}
