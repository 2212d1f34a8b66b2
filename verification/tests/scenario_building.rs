//! Building scenarios: node registration, connections, and their errors.

use ecoblock_sim::errors::SimulationError;
use ecoblock_sim::scenario::SimulationScenario;

#[test]
fn new_scenario_is_empty() {
    let s = SimulationScenario::new("empty");
    assert_eq!(s.name, "empty");
    assert_eq!(s.nodes.len(), 0);
    assert_eq!(s.connections.len(), 0);
}

#[test]
fn add_node_registers_a_fresh_node() {
    let mut s = SimulationScenario::new("one");
    assert!(s.add_node("A").is_ok());
    assert_eq!(s.nodes.len(), 1);
    assert_eq!(s.nodes[0].id, "A");
    assert_eq!(s.nodes[0].peers.len(), 0);
    assert_eq!(s.nodes[0].engine.seen.len(), 0);
    assert_eq!(s.nodes[0].engine.delivered.len(), 0);
}

#[test]
fn add_node_rejects_a_duplicate_id() {
    let mut s = SimulationScenario::new("dup");
    assert!(s.add_node("A").is_ok());
    assert_eq!(s.add_node("A"), Err(SimulationError::DuplicateNode));
    assert_eq!(s.nodes.len(), 1);
}

#[test]
fn connect_links_registered_nodes() {
    let mut s = SimulationScenario::new("pair");
    s.add_node("A").unwrap();
    s.add_node("B").unwrap();
    assert!(s.connect("A", "B").is_ok());
    assert_eq!(s.connections, vec![("A".to_string(), "B".to_string())]);
    // directed: only A lists B
    assert_eq!(s.nodes[0].peers, vec![1]);
    assert_eq!(s.nodes[1].peers.len(), 0);
}

#[test]
fn connect_twice_keeps_both_entries_but_one_peer() {
    let mut s = SimulationScenario::new("twice");
    s.add_node("A").unwrap();
    s.add_node("B").unwrap();
    s.connect("A", "B").unwrap();
    s.connect("A", "B").unwrap();
    assert_eq!(
        s.connections,
        vec![
            ("A".to_string(), "B".to_string()),
            ("A".to_string(), "B".to_string())
        ]
    );
    let b_index = s.find_node(&"B".to_string()).unwrap();
    let hits = s.nodes[0].peers.iter().filter(|&&p| p == b_index).count();
    assert_eq!(hits, 1);
    assert_eq!(s.nodes[0].peers.len(), 1);
}

#[test]
fn connect_rejects_an_unknown_endpoint() {
    let mut s = SimulationScenario::new("unknown");
    s.add_node("A").unwrap();
    assert_eq!(s.connect("A", "Z"), Err(SimulationError::UnknownNode));
    assert_eq!(s.connect("Z", "A"), Err(SimulationError::UnknownNode));
    assert_eq!(s.connections.len(), 0);
    assert_eq!(s.nodes[0].peers.len(), 0);
}

#[test]
fn self_loop_is_recorded_but_harmless() {
    let mut s = SimulationScenario::new("loop");
    s.add_node("A").unwrap();
    assert!(s.connect("A", "A").is_ok());
    assert_eq!(s.connections.len(), 1);
    assert_eq!(s.nodes[0].peers, vec![0]);
}

#[test]
fn all_nodes_lists_every_registered_node() {
    let mut s = SimulationScenario::new("all");
    s.add_node("A").unwrap();
    s.add_node("B").unwrap();
    s.add_node("C").unwrap();
    let nodes = s.all_nodes();
    assert_eq!(nodes.len(), 3);
    let ids: Vec<&str> = nodes.iter().map(|n| n.id.as_str()).collect();
    assert_eq!(ids, vec!["A", "B", "C"]);
}

#[test]
fn find_node_reports_presence() {
    let mut s = SimulationScenario::new("find");
    s.add_node("A").unwrap();
    s.add_node("B").unwrap();
    assert_eq!(s.find_node(&"A".to_string()), Some(0));
    assert_eq!(s.find_node(&"B".to_string()), Some(1));
    assert_eq!(s.find_node(&"Z".to_string()), None);
}
