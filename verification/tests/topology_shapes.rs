//! The topology generators return exactly the documented edge lists.

use ecoblock_sim::topology::{full_mesh, linear_topology, ring_topology, tree_topology};

#[test]
fn linear_topology_is_a_chain() {
    let edges = linear_topology();
    assert_eq!(edges, vec![("A", "B"), ("B", "C"), ("C", "D")]);
}

#[test]
fn ring_topology_closes_the_chain() {
    let edges = ring_topology();
    assert_eq!(edges, vec![("A", "B"), ("B", "C"), ("C", "D"), ("D", "A")]);
}

#[test]
fn tree_topology_is_a_binary_tree() {
    let edges = tree_topology();
    assert_eq!(
        edges,
        vec![("A", "B"), ("A", "C"), ("B", "D"), ("B", "E"), ("C", "F"), ("C", "G")]
    );
}

#[test]
fn full_mesh_yields_n_times_n_minus_one_edges() {
    let nodes = ["A", "B", "C", "D"];
    let edges = full_mesh(&nodes);
    assert_eq!(edges.len(), 4 * 3);
    for &from in &nodes {
        for &to in &nodes {
            if from != to {
                assert!(edges.contains(&(from, to)));
            }
        }
    }
    assert!(!edges.contains(&("A", "A")));
}

#[test]
fn full_mesh_row_order_is_row_major() {
    let edges = full_mesh(&["A", "B", "C"]);
    assert_eq!(
        edges,
        vec![("A", "B"), ("A", "C"), ("B", "A"), ("B", "C"), ("C", "A"), ("C", "B")]
    );
}

#[test]
fn full_mesh_of_one_or_none_is_empty() {
    assert_eq!(full_mesh(&[]).len(), 0);
    assert_eq!(full_mesh(&["X"]).len(), 0);
}

#[test]
fn full_mesh_skips_equal_names() {
    // comparison is by name, so a repeated name never links to itself
    let edges = full_mesh(&["A", "A"]);
    assert_eq!(edges.len(), 0);
}

#[test]
fn generators_are_idempotent() {
    assert_eq!(linear_topology(), linear_topology());
    assert_eq!(ring_topology(), ring_topology());
    assert_eq!(tree_topology(), tree_topology());
    assert_eq!(full_mesh(&["A", "B"]), full_mesh(&["A", "B"]));
}
