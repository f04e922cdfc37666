//! Snapshot mechanics: tags, generation stamping, purity.
use inst_graph::filters::Filter;
use inst_graph::graph::{EdgeKind, InstGraph, NodeData, NodeKind};
use inst_graph::items::{ENodeIdx, InstIdx};
use inst_graph::visible::{EdgeType, VisibleEdge, VisibleEdgeKind};

fn chain_graph() -> InstGraph {
    let mut g = InstGraph::new();
    g.add_node(NodeData::new(NodeKind::Instantiation(InstIdx(0)), 5, false, None, None));
    g.add_node(NodeData::new(NodeKind::ENode(ENodeIdx(0)), 0, false, None, None));
    g.add_node(NodeData::new(NodeKind::Instantiation(InstIdx(2)), 3, false, None, None));
    g.add_edge(0, 1, EdgeKind::Yield);
    g.add_edge(1, 2, EdgeKind::Blame { trigger_term: 0 });
    g.finalize();
    g
}

#[test]
fn edge_tags_distinguish_direct_and_indirect() {
    let mut g = chain_graph();
    let vg = g.apply_chain(&vec![Filter::MaxInsts(2)]).unwrap();
    assert_eq!(vg.edge_count(), 1);
    let e = &vg.edges[0].edge;
    assert!(e.is_indirect());
    assert_eq!(e.data().edge_type, EdgeType::Indirect);

    let full = g.reset();
    assert_eq!(full.edge_count(), 2);
    for rec in &full.edges {
        assert!(!rec.edge.is_indirect());
        assert_eq!(rec.edge.data().edge_type, EdgeType::Direct);
        assert!(matches!(rec.edge, VisibleEdge::Direct(_)));
    }
}

#[test]
fn generation_is_stamped_onto_snapshots() {
    let mut g = chain_graph();
    assert_eq!(g.generation, 0);
    let a = g.apply_chain(&vec![]).unwrap();
    assert_eq!(a.generation, 1);
    let b = g.reset();
    assert_eq!(b.generation, 2);
    // Taking a snapshot directly does not advance the counter.
    let c = g.to_visible();
    assert_eq!(c.generation, 2);
}

#[test]
fn materialization_is_pure() {
    let mut g = chain_graph();
    g.apply_chain(&vec![Filter::MaxInsts(2)]).unwrap();
    let one = g.to_visible();
    let two = g.to_visible();
    assert_eq!(one.nodes, two.nodes);
    assert_eq!(one.edges, two.edges);
    assert_eq!(one.generation, two.generation);
}

#[test]
fn reverse_map_tracks_visibility() {
    let mut g = chain_graph();
    let vg = g.apply_chain(&vec![Filter::MaxInsts(2)]).unwrap();
    assert!(vg.contains(0));
    assert!(!vg.contains(1));
    assert!(vg.contains(2));
    assert_eq!(vg.reverse[0], Some(0));
    assert_eq!(vg.reverse[1], None);
    assert_eq!(vg.reverse[2], Some(1));
}

#[test]
fn edge_kind_classification() {
    // 0: instantiation, 1: e-node, 2: given equality, 3: transitive
    // equality, with a yield/equality chain between them.
    let mut g = InstGraph::new();
    g.add_node(NodeData::new(NodeKind::Instantiation(InstIdx(0)), 5, false, None, None));
    g.add_node(NodeData::new(NodeKind::ENode(ENodeIdx(7)), 0, false, None, None));
    g.add_node(NodeData::new(
        NodeKind::GivenEquality(inst_graph::items::EqGivenIdx(4)),
        0,
        false,
        None,
        None,
    ));
    g.add_node(NodeData::new(
        NodeKind::TransEquality(inst_graph::items::EqTransIdx(2)),
        0,
        false,
        None,
        None,
    ));
    g.add_edge(0, 1, EdgeKind::Yield);
    g.add_edge(1, 2, EdgeKind::EqualityFact);
    g.add_edge(2, 3, EdgeKind::TEqualitySimple);
    g.finalize();

    // Show only the instantiation and the transitive equality: the chain
    // through the two hidden middle nodes becomes one indirect edge.
    let vg = g
        .apply_chain(&vec![
            Filter::MaxInsts(1),
            Filter::ShowNeighbours(2, inst_graph::filters::Direction::Outgoing),
        ])
        .unwrap();
    assert_eq!(vg.node_count(), 2);
    assert_eq!(vg.edge_count(), 1);
    let kind = vg.edges[0].edge.kind(&g);
    assert_eq!(kind, VisibleEdgeKind::YieldEq(inst_graph::items::EqGivenIdx(4)));
    assert_eq!(
        kind.blame(&g),
        NodeKind::GivenEquality(inst_graph::items::EqGivenIdx(4))
    );
}

#[test]
fn edge_kind_yield_blame_and_fallbacks() {
    let mut g = InstGraph::new();
    g.add_node(NodeData::new(NodeKind::Instantiation(InstIdx(0)), 5, false, None, None));
    g.add_node(NodeData::new(NodeKind::ENode(ENodeIdx(9)), 0, false, None, None));
    g.add_node(NodeData::new(NodeKind::Instantiation(InstIdx(2)), 3, false, None, None));
    g.add_edge(0, 1, EdgeKind::Yield);
    g.add_edge(1, 2, EdgeKind::Blame { trigger_term: 6 });
    g.finalize();

    let vg = g.apply_chain(&vec![Filter::MaxInsts(2)]).unwrap();
    assert_eq!(vg.edge_count(), 1);
    let kind = vg.edges[0].edge.kind(&g);
    assert_eq!(
        kind,
        VisibleEdgeKind::YieldBlame { enode: ENodeIdx(9), trigger_term: 6 }
    );
    assert_eq!(kind.blame(&g), NodeKind::ENode(ENodeIdx(9)));

    // A direct edge keeps its raw kind and blames its source node.
    let full = g.reset();
    let d0 = full.edges[0].edge.kind(&g);
    assert_eq!(d0, VisibleEdgeKind::Direct(0, EdgeKind::Yield));
    assert_eq!(d0.blame(&g), NodeKind::Instantiation(InstIdx(0)));
}

#[test]
fn edge_kind_unknown_for_odd_chains() {
    // Two yields in a row match no known pattern.
    let mut g = InstGraph::new();
    g.add_node(NodeData::new(NodeKind::Instantiation(InstIdx(0)), 5, false, None, None));
    g.add_node(NodeData::new(NodeKind::ENode(ENodeIdx(0)), 0, false, None, None));
    g.add_node(NodeData::new(NodeKind::Instantiation(InstIdx(2)), 3, false, None, None));
    g.add_edge(0, 1, EdgeKind::Yield);
    g.add_edge(1, 2, EdgeKind::Yield);
    g.finalize();

    let vg = g.apply_chain(&vec![Filter::MaxInsts(2)]).unwrap();
    assert_eq!(vg.edge_count(), 1);
    let kind = vg.edges[0].edge.kind(&g);
    assert_eq!(
        kind,
        VisibleEdgeKind::Unknown(0, vec![EdgeKind::Yield, EdgeKind::Yield], 1)
    );
}
