use rhizome::id::RelationId;
use rhizome::logic::ast::Polarity;
use rhizome::logic::graph::DependencyGraph;

fn chain() -> DependencyGraph {
    let mut graph = DependencyGraph::new();
    let a = RelationId::new("a");
    let b = RelationId::new("b");
    let c = RelationId::new("c");
    assert!(graph.depend(&a, &b, Polarity::Positive));
    assert!(graph.depend(&a, &c, Polarity::Negative));
    assert!(graph.depend(&c, &c, Polarity::Positive));
    graph
}

#[test]
fn nodes_are_numbered_as_they_are_met() {
    let graph = chain();
    assert_eq!(graph.node_count(), 3);
    assert_eq!(graph.relation(0).as_str(), "b");
    assert_eq!(graph.relation(1).as_str(), "a");
    assert_eq!(graph.relation(2).as_str(), "c");
    assert_eq!(graph.edge_count(), 3);
}

#[test]
fn an_edge_is_found_from_its_source_to_its_target_only() {
    let graph = chain();
    assert!(graph.contains_edge(1, 0));
    assert!(graph.contains_edge(1, 2));
    assert!(graph.contains_edge(2, 2));
    assert!(!graph.contains_edge(0, 1));
    assert!(!graph.contains_edge(2, 1));
    assert!(!graph.contains_edge(0, 0));
    assert!(!graph.contains_edge(0, 2));
}

#[test]
fn the_edges_that_leave_a_node() {
    let graph = chain();
    let mut from_a = graph.outgoing(1);
    from_a.sort();
    assert_eq!(from_a, vec![(0, false), (2, true)]);
    assert_eq!(graph.outgoing(2), vec![(2, false)]);
    assert_eq!(graph.outgoing(0), vec![]);
}

#[test]
fn components_come_with_what_they_depend_on_last() {
    let graph = chain();
    let components = graph.components();
    assert_eq!(components.len(), 3);
    let place = |node: usize| components.iter().position(|c| c.contains(&node)).unwrap();
    assert!(place(0) < place(1));
    assert!(place(2) < place(1));
}
