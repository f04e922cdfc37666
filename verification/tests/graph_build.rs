//! Raw-graph construction: from the fact store's dependency list, and the
//! metadata pass.
use inst_graph::construct::Dependency;
use inst_graph::graph::{EdgeKind, GraphError, InstGraph, NodeData, NodeKind};
use inst_graph::items::{InstIdx, QuantIdx};

fn dep(from: usize, to: Option<usize>, cost: u64) -> Dependency {
    Dependency {
        from,
        to,
        quant: Some(QuantIdx(0)),
        quant_discovered: false,
        quant_name: None,
        cost,
        kind: EdgeKind::Yield,
    }
}

#[test]
fn builds_one_node_per_distinct_target_line() {
    let deps = vec![
        dep(0, Some(10), 5),
        dep(0, Some(20), 3),
        dep(10, Some(20), 3), // line 20 already has a node
        dep(10, Some(30), 1),
        dep(20, Some(30), 1),
    ];
    let g = InstGraph::from_dependencies(&deps).unwrap();
    assert_eq!(g.nodes.len(), 3);
    assert_eq!(g.edges.len(), 3);
    assert_eq!((g.edges[0].from, g.edges[0].to), (0, 1));
    assert_eq!((g.edges[1].from, g.edges[1].to), (0, 2));
    assert_eq!((g.edges[2].from, g.edges[2].to), (1, 2));
    // First dependency for each line supplies the node data.
    assert_eq!(g.nodes[0].cost, 5);
    assert_eq!(g.nodes[0].kind, NodeKind::Instantiation(InstIdx(0)));
    assert_eq!(g.nodes[2].cost, 1);
    assert_eq!(g.generation, 0);
}

#[test]
fn rejects_unknown_source_line() {
    let deps = vec![dep(0, Some(10), 5), dep(99, Some(20), 3)];
    assert_eq!(
        InstGraph::from_dependencies(&deps).unwrap_err(),
        GraphError::InconsistentDependencies
    );
}

#[test]
fn rejects_backward_causality() {
    let deps = vec![
        dep(0, Some(10), 5),
        dep(0, Some(20), 3),
        dep(20, Some(10), 5), // an edge backwards in discovery order
    ];
    assert_eq!(
        InstGraph::from_dependencies(&deps).unwrap_err(),
        GraphError::InconsistentDependencies
    );
}

#[test]
fn empty_dependency_list_gives_empty_graph() {
    let g = InstGraph::from_dependencies(&vec![]).unwrap();
    assert_eq!(g.nodes.len(), 0);
    assert_eq!(g.edges.len(), 0);
    let vg = g.to_visible();
    assert_eq!(vg.node_count(), 0);
    assert_eq!(vg.edge_count(), 0);
}

#[test]
fn metadata_pass_computes_counts_depths_and_ranks() {
    // Diamond: 0 -> 1 -> 3, 0 -> 2 -> 3, costs 4, 9, 9, 2.
    let mut g = InstGraph::new();
    for (i, cost) in [(0usize, 4u64), (1, 9), (2, 9), (3, 2)] {
        g.add_node(NodeData::new(
            NodeKind::Instantiation(InstIdx(i)),
            cost,
            false,
            None,
            None,
        ));
    }
    g.add_edge(0, 1, EdgeKind::Yield);
    g.add_edge(0, 2, EdgeKind::Yield);
    g.add_edge(1, 3, EdgeKind::Yield);
    g.add_edge(2, 3, EdgeKind::Yield);
    g.finalize();

    assert_eq!(g.nodes[0].child_count, 2);
    assert_eq!(g.nodes[0].parent_count, 0);
    assert_eq!(g.nodes[3].child_count, 0);
    assert_eq!(g.nodes[3].parent_count, 2);

    assert_eq!(g.nodes[0].fwd_depth, 0);
    assert_eq!(g.nodes[1].fwd_depth, 1);
    assert_eq!(g.nodes[2].fwd_depth, 1);
    assert_eq!(g.nodes[3].fwd_depth, 2);

    assert_eq!(g.nodes[0].bwd_depth, 2);
    assert_eq!(g.nodes[1].bwd_depth, 1);
    assert_eq!(g.nodes[2].bwd_depth, 1);
    assert_eq!(g.nodes[3].bwd_depth, 0);

    // Cost order: 1 (cost 9) before 2 (cost 9, higher index), then 0, 3.
    assert_eq!(g.nodes[1].cost_rank, 0);
    assert_eq!(g.nodes[2].cost_rank, 1);
    assert_eq!(g.nodes[0].cost_rank, 2);
    assert_eq!(g.nodes[3].cost_rank, 3);
}

#[test]
fn filtered_neighbour_queries() {
    let mut g = InstGraph::new();
    for i in 0..3usize {
        g.add_node(NodeData::new(
            NodeKind::Instantiation(InstIdx(i)),
            (3 - i) as u64,
            false,
            None,
            None,
        ));
    }
    g.add_edge(0, 1, EdgeKind::Yield);
    g.add_edge(1, 2, EdgeKind::Yield);
    g.finalize();

    let vg = g
        .apply_chain(&vec![inst_graph::filters::Filter::MaxInsts(1)])
        .unwrap();
    assert_eq!(vg.node_count(), 1);
    assert!(g.node_has_filtered_children(0));
    assert!(!g.node_has_filtered_parents(1));
    assert!(g.node_has_filtered_parents(2));
    assert!(!g.node_has_filtered_children(2));
}
