//! Per-variant behaviour of the filter engine and the disabling engine.
use inst_graph::filters::{Direction, Disabler, Filter, FilterSettings};
use inst_graph::graph::{EdgeKind, GraphError, InstGraph, NodeData, NodeKind};
use inst_graph::items::{ENodeIdx, EqGivenIdx, EqTransIdx, InstIdx, QuantIdx};

fn inst(i: usize, cost: u64, quant: Option<usize>, theory: bool, name: Option<&str>) -> NodeData {
    NodeData::new(
        NodeKind::Instantiation(InstIdx(i)),
        cost,
        theory,
        quant.map(QuantIdx),
        name.map(|s| s.to_string()),
    )
}

fn enode(i: usize) -> NodeData {
    NodeData::new(NodeKind::ENode(ENodeIdx(i)), 0, false, None, None)
}

/// A small mixed graph: 0 -> 1 -> 3, 0 -> 2 -> 3, 3 -> 4.
fn mixed() -> InstGraph {
    let mut g = InstGraph::new();
    g.add_node(inst(0, 10, Some(1), false, Some("alpha")));
    g.add_node(inst(1, 8, Some(2), true, Some("beta")));
    g.add_node(enode(0));
    g.add_node(inst(3, 6, None, false, None));
    g.add_node(inst(4, 4, Some(1), false, Some("alpha")));
    g.add_edge(0, 1, EdgeKind::Yield);
    g.add_edge(0, 2, EdgeKind::Yield);
    g.add_edge(1, 3, EdgeKind::Blame { trigger_term: 0 });
    g.add_edge(2, 3, EdgeKind::Blame { trigger_term: 1 });
    g.add_edge(3, 4, EdgeKind::Yield);
    g.finalize();
    g
}

fn visible_set(g: &mut InstGraph, chain: Vec<Filter>) -> Vec<usize> {
    let vg = g.apply_chain(&chain).unwrap();
    vg.nodes.iter().map(|n| n.idx).collect()
}

#[test]
fn max_and_min_node_idx() {
    let mut g = mixed();
    assert_eq!(visible_set(&mut g, vec![Filter::MaxNodeIdx(3)]), vec![0, 1, 2]);
    assert_eq!(visible_set(&mut g, vec![Filter::MinNodeIdx(3)]), vec![3, 4]);
}

#[test]
fn ignore_theory_solving_hides_only_theory_insts() {
    let mut g = mixed();
    assert_eq!(
        visible_set(&mut g, vec![Filter::IgnoreTheorySolving]),
        vec![0, 2, 3, 4]
    );
}

#[test]
fn quantifier_filters() {
    let mut g = mixed();
    assert_eq!(
        visible_set(&mut g, vec![Filter::IgnoreQuantifier(Some(QuantIdx(1)))]),
        vec![1, 2, 3]
    );
    // `None` means instantiations discovered without a quantifier.
    assert_eq!(
        visible_set(&mut g, vec![Filter::IgnoreQuantifier(None)]),
        vec![0, 1, 2, 4]
    );
    // Keeping one quantifier leaves non-instantiation nodes alone.
    assert_eq!(
        visible_set(&mut g, vec![Filter::IgnoreAllButQuantifier(Some(QuantIdx(1)))]),
        vec![0, 2, 4]
    );
}

#[test]
fn named_quantifier_keeps_only_matching_insts() {
    let mut g = mixed();
    assert_eq!(
        visible_set(&mut g, vec![Filter::ShowNamedQuantifier("alpha".to_string())]),
        vec![0, 4]
    );
    assert_eq!(
        visible_set(&mut g, vec![Filter::ShowNamedQuantifier("gamma".to_string())]),
        Vec::<usize>::new()
    );
}

#[test]
fn max_branching_ranks_by_child_count_then_index() {
    let mut g = mixed();
    // Child counts: node0 has 2, nodes 1,2,3 have 1, node4 has 0.
    assert_eq!(visible_set(&mut g, vec![Filter::MaxBranching(2)]), vec![0, 1]);
}

#[test]
fn max_depth_uses_forward_depth() {
    let mut g = mixed();
    assert_eq!(visible_set(&mut g, vec![Filter::MaxDepth(1)]), vec![0, 1, 2]);
    assert_eq!(visible_set(&mut g, vec![Filter::MaxDepth(0)]), vec![0]);
}

#[test]
fn show_neighbours_overrides_prior_hides() {
    let mut g = mixed();
    assert_eq!(
        visible_set(
            &mut g,
            vec![
                Filter::MaxNodeIdx(1),
                Filter::ShowNeighbours(3, Direction::Incoming),
            ]
        ),
        vec![0, 1, 2]
    );
    assert_eq!(
        visible_set(
            &mut g,
            vec![
                Filter::MaxNodeIdx(1),
                Filter::ShowNeighbours(3, Direction::Outgoing),
            ]
        ),
        vec![0, 4]
    );
}

#[test]
fn subtree_and_source_tree() {
    let mut g = mixed();
    assert_eq!(
        visible_set(&mut g, vec![Filter::VisitSubTreeWithRoot(1, true)]),
        vec![1, 3, 4]
    );
    assert_eq!(
        visible_set(&mut g, vec![Filter::VisitSubTreeWithRoot(1, false)]),
        vec![0, 2]
    );
    assert_eq!(
        visible_set(&mut g, vec![Filter::VisitSourceTree(3, true)]),
        vec![0, 1, 2, 3]
    );
    assert_eq!(
        visible_set(&mut g, vec![Filter::VisitSourceTree(3, false)]),
        vec![4]
    );
}

#[test]
fn out_of_range_filter_is_rejected_whole() {
    let mut g = mixed();
    let before = g.generation;
    let r = g.apply_chain(&vec![
        Filter::MaxInsts(1),
        Filter::ShowNeighbours(99, Direction::Outgoing),
    ]);
    assert_eq!(r.unwrap_err(), GraphError::NodeOutOfRange);
    assert_eq!(g.generation, before);
    // The graph is untouched; a valid chain still works afterwards.
    let vg = g.apply_chain(&vec![]).unwrap();
    assert_eq!(vg.node_count(), 5);
}

#[test]
fn disablers_mark_without_hiding() {
    let mut g = mixed();
    let all_before: Vec<usize> = visible_set(&mut g, vec![]);

    Disabler::apply(&vec![Disabler::Smart], &mut g);
    // The e-node at index 2 is a pure pass-through: one parent, one child.
    assert!(g.nodes[2].disabled);
    assert!(!g.nodes[0].disabled);
    assert!(!g.nodes[3].disabled);

    Disabler::apply(&vec![Disabler::ENodes], &mut g);
    assert!(g.nodes[2].disabled);
    assert!(!g.nodes[1].disabled);

    Disabler::apply(&vec![], &mut g);
    assert!(!g.nodes[2].disabled);

    // Whatever the disabler set, visibility is untouched.
    let all_after: Vec<usize> = visible_set(&mut g, vec![]);
    assert_eq!(all_before, all_after);
}

#[test]
fn smart_disabler_on_equalities() {
    let mut g = InstGraph::new();
    g.add_node(enode(0));
    g.add_node(NodeData::new(NodeKind::GivenEquality(EqGivenIdx(0)), 0, false, None, None));
    g.add_node(NodeData::new(NodeKind::TransEquality(EqTransIdx(0)), 0, false, None, None));
    g.add_node(inst(3, 1, None, false, None));
    g.add_edge(0, 1, EdgeKind::EqualityFact);
    g.add_edge(1, 2, EdgeKind::TEqualitySimple);
    g.add_edge(2, 3, EdgeKind::BlameEq { trigger_term: 0, eq_order: 0 });
    g.finalize();

    Disabler::apply(&vec![Disabler::Smart], &mut g);
    // Given equality 1: one parent, one child -> disabled.
    assert!(g.nodes[1].disabled);
    // Trans equality 2: one parent, one child -> disabled.
    assert!(g.nodes[2].disabled);
    // Instantiations never are.
    assert!(!g.nodes[3].disabled);

    Disabler::apply(&vec![Disabler::GivenEqualities], &mut g);
    assert!(g.nodes[1].disabled);
    assert!(!g.nodes[2].disabled);

    Disabler::apply(&vec![Disabler::AllEqualities], &mut g);
    assert!(g.nodes[1].disabled);
    assert!(g.nodes[2].disabled);
    assert!(!g.nodes[0].disabled);
}

#[test]
fn disabler_labels() {
    assert_eq!(Disabler::Smart.description(), "trivial nodes");
    assert_eq!(Disabler::ENodes.description(), "yield terms");
    assert_eq!(Disabler::GivenEqualities.description(), "yield equalities");
    assert_eq!(Disabler::AllEqualities.description(), "all equalities");
    assert_eq!(Disabler::Smart.icon(), "low_priority");
    assert_eq!(Disabler::ENodes.icon(), "functions");
    assert_eq!(Disabler::GivenEqualities.icon(), "compare_arrows");
    assert_eq!(Disabler::AllEqualities.icon(), "compare_arrows");
}

#[test]
fn filter_settings_bundle() {
    let defaults = FilterSettings::default();
    assert_eq!(defaults.max_line_nr, usize::MAX);
    assert!(defaults.exclude_theory_inst);
    assert_eq!(defaults.max_instantiations, 250);

    let mut g = mixed();
    let vg = g
        .filter(FilterSettings {
            max_line_nr: 3,
            exclude_theory_inst: true,
            max_instantiations: 2,
        })
        .unwrap();
    // Node 4 is beyond the bound, node 1 is a theory instantiation, and
    // of the rest only the two most expensive instantiations stay.
    let kept: Vec<usize> = vg.nodes.iter().map(|n| n.idx).collect();
    assert_eq!(kept, vec![0, 3]);
}

#[test]
fn keep_n_most_costly_is_idempotent() {
    let mut g = mixed();
    g.keep_n_most_costly(2);
    let first: Vec<bool> = g.nodes.iter().map(|n| n.visible).collect();
    // Retaining the top instantiations twice keeps exactly the same set.
    g.keep_n_most_costly(2);
    let second: Vec<bool> = g.nodes.iter().map(|n| n.visible).collect();
    assert_eq!(first, second);
    // The two most expensive instantiations are nodes 0 and 1.
    assert_eq!(first, vec![true, true, false, false, false]);
}
