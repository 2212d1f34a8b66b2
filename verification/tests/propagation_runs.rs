//! Propagation runs over the standard topology shapes.

use ecoblock_sim::block::Block;
use ecoblock_sim::engine::SimulationEngine;
use ecoblock_sim::errors::SimulationError;
use ecoblock_sim::runner::ScenarioRunner;
use ecoblock_sim::scenario::SimulationScenario;

fn block(id: &str) -> Block {
    Block::new(id.to_string(), Vec::new())
}

fn scenario_with(name: &str, nodes: &[&str], edges: &[(&str, &str)]) -> SimulationScenario {
    let mut s = SimulationScenario::new(name);
    for id in nodes {
        s.add_node(id).unwrap();
    }
    for (from, to) in edges {
        s.connect(from, to).unwrap();
    }
    s
}

fn visit_summary(rep: &ecoblock_sim::engine::PropagationReport) -> Vec<(String, bool)> {
    rep.visits.clone()
}

#[test]
fn linear_chain_reaches_every_node_in_order() {
    let mut s = scenario_with("linear", &["A", "B", "C"], &[("A", "B"), ("B", "C")]);
    let rep = SimulationEngine::run(&mut s, &block("b1"), "A").unwrap();
    assert_eq!(rep.total, 3);
    assert_eq!(rep.reached, 3);
    assert_eq!(
        visit_summary(&rep),
        vec![
            ("A".to_string(), true),
            ("B".to_string(), true),
            ("C".to_string(), true)
        ]
    );
}

#[test]
fn block_is_recorded_on_every_visited_node() {
    let mut s = scenario_with("linear", &["A", "B", "C"], &[("A", "B"), ("B", "C")]);
    let bid = "b1".to_string();
    assert!(!s.nodes[2].engine.has_received(&bid));
    SimulationEngine::run(&mut s, &block("b1"), "A").unwrap();
    for node in s.all_nodes() {
        assert!(node.engine.has_received(&bid));
        assert_eq!(node.engine.delivered, vec!["b1".to_string()]);
    }
}

#[test]
fn star_from_hub_reaches_all_leaves() {
    let mut s = scenario_with(
        "star",
        &["A", "B", "C", "D"],
        &[("A", "B"), ("A", "C"), ("A", "D")],
    );
    let rep = SimulationEngine::run(&mut s, &block("b1"), "A").unwrap();
    assert_eq!(rep.reached, 4);
    assert_eq!(rep.total, 4);
}

#[test]
fn star_from_leaf_reaches_only_itself() {
    // edges run hub -> leaf only, so a leaf has no outgoing reach
    let mut s = scenario_with(
        "star",
        &["A", "B", "C", "D"],
        &[("A", "B"), ("A", "C"), ("A", "D")],
    );
    let rep = SimulationEngine::run(&mut s, &block("b1"), "B").unwrap();
    assert_eq!(rep.reached, 1);
    assert_eq!(visit_summary(&rep), vec![("B".to_string(), true)]);
    let bid = "b1".to_string();
    assert!(!s.nodes[0].engine.has_received(&bid));
    assert!(s.nodes[1].engine.has_received(&bid));
}

#[test]
fn ring_terminates_and_reaches_all_three() {
    let mut s = scenario_with(
        "ring",
        &["A", "B", "C"],
        &[("A", "B"), ("B", "C"), ("C", "A")],
    );
    let rep = SimulationEngine::run(&mut s, &block("b1"), "A").unwrap();
    assert_eq!(rep.reached, 3);
    assert_eq!(rep.total, 3);
    assert_eq!(
        visit_summary(&rep),
        vec![
            ("A".to_string(), true),
            ("B".to_string(), true),
            ("C".to_string(), true)
        ]
    );
}

#[test]
fn full_mesh_delivers_exactly_once_per_node() {
    let names = ["A", "B", "C", "D"];
    let mut edges: Vec<(&str, &str)> = Vec::new();
    for &from in &names {
        for &to in &names {
            if from != to {
                edges.push((from, to));
            }
        }
    }
    let mut s = scenario_with("mesh", &names, &edges);
    let rep = SimulationEngine::run(&mut s, &block("b1"), "A").unwrap();
    assert_eq!(rep.reached, 4);
    for node in s.all_nodes() {
        // the delivery side effect fired exactly once despite many paths
        assert_eq!(node.engine.delivered, vec!["b1".to_string()]);
        assert_eq!(node.engine.seen, vec!["b1".to_string()]);
    }
}

#[test]
fn rerun_with_same_block_touches_nothing() {
    let mut s = scenario_with("linear", &["A", "B", "C"], &[("A", "B"), ("B", "C")]);
    let first = SimulationEngine::run(&mut s, &block("b1"), "A").unwrap();
    assert_eq!(first.reached, 3);
    let second = SimulationEngine::run(&mut s, &block("b1"), "A").unwrap();
    // the entry already holds the block, so nothing propagates further
    assert_eq!(second.reached, 1);
    assert_eq!(visit_summary(&second), vec![("A".to_string(), false)]);
    for node in s.all_nodes() {
        // state identical to the state after the first run
        assert_eq!(node.engine.delivered, vec!["b1".to_string()]);
        assert_eq!(node.engine.seen, vec!["b1".to_string()]);
    }
}

#[test]
fn second_block_propagates_independently() {
    let mut s = scenario_with("linear", &["A", "B"], &[("A", "B")]);
    SimulationEngine::run(&mut s, &block("b1"), "A").unwrap();
    let rep = SimulationEngine::run(&mut s, &block("b2"), "A").unwrap();
    assert_eq!(rep.reached, 2);
    for node in s.all_nodes() {
        assert_eq!(
            node.engine.delivered,
            vec!["b1".to_string(), "b2".to_string()]
        );
    }
}

#[test]
fn unknown_entry_fails_without_reaching_anyone() {
    let mut s = scenario_with("linear", &["A", "B"], &[("A", "B")]);
    let res = SimulationEngine::run(&mut s, &block("b1"), "Z");
    assert_eq!(res.err(), Some(SimulationError::UnknownNode));
    let bid = "b1".to_string();
    for node in s.all_nodes() {
        assert!(!node.engine.has_received(&bid));
    }
}

#[test]
fn tree_fans_out_from_root_but_not_upward() {
    let mut s = scenario_with(
        "tree",
        &["Root", "Child1", "Child2", "Grandchild1"],
        &[("Root", "Child1"), ("Root", "Child2"), ("Child1", "Grandchild1")],
    );
    let rep = SimulationEngine::run(&mut s, &block("b1"), "Root").unwrap();
    assert_eq!(rep.reached, 4);
    assert_eq!(
        visit_summary(&rep),
        vec![
            ("Root".to_string(), true),
            ("Child1".to_string(), true),
            ("Child2".to_string(), true),
            ("Grandchild1".to_string(), true)
        ]
    );

    let mut s2 = scenario_with(
        "tree",
        &["Root", "Child1", "Child2", "Grandchild1"],
        &[("Root", "Child1"), ("Root", "Child2"), ("Child1", "Grandchild1")],
    );
    let rep2 = SimulationEngine::run(&mut s2, &block("b1"), "Grandchild1").unwrap();
    assert_eq!(rep2.reached, 1);
    assert_eq!(visit_summary(&rep2), vec![("Grandchild1".to_string(), true)]);
}

#[test]
fn self_loop_is_a_safe_no_op() {
    let mut s = scenario_with("loop", &["A", "B"], &[("A", "A"), ("A", "B")]);
    let rep = SimulationEngine::run(&mut s, &block("b1"), "A").unwrap();
    assert_eq!(rep.reached, 2);
    assert_eq!(s.nodes[0].engine.delivered, vec!["b1".to_string()]);
}

#[test]
fn runner_reports_one_result_per_scenario() {
    let linear = scenario_with("linear", &["A", "B"], &[("A", "B")]);
    let lonely = scenario_with("lonely", &["A"], &[]);
    let empty = SimulationScenario::new("empty");
    let mut runner = ScenarioRunner::new()
        .add_scenario("linear", linear)
        .add_scenario("lonely", lonely)
        .add_scenario("empty", empty);
    let reports = runner.run_all(&block("b1"));
    assert_eq!(reports.len(), 3);
    assert_eq!(reports[0].reached, 2);
    assert_eq!(reports[0].total, 2);
    assert_eq!(reports[1].reached, 1);
    assert_eq!(reports[1].total, 1);
    assert_eq!(reports[2].reached, 0);
    assert_eq!(reports[2].total, 0);
    assert_eq!(runner.scenarios[0].name, "linear");
}

#[test]
fn block_carries_id_and_parents() {
    let b = Block::new("b2".to_string(), vec!["b1".to_string()]);
    assert_eq!(b.id, "b2");
    assert_eq!(b.parents, vec!["b1".to_string()]);
}
