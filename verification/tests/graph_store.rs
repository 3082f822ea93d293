use graph_cycles::{create_graph, Edge, Graph, Node};

#[test]
fn node_new_has_no_edges() {
    let node = Node::new(7);
    assert_eq!(node.id, 7);
    assert!(node.starts.is_empty());
    assert!(node.ends.is_empty());
}

#[test]
fn node_add_edge_appends_in_order() {
    let mut node = Node::new(1);
    node.add_edge(10, true);
    node.add_edge(20, false);
    node.add_edge(30, true);
    node.add_edge(40, false);
    assert_eq!(node.id, 1);
    assert_eq!(node.starts, vec![10, 30]);
    assert_eq!(node.ends, vec![20, 40]);
}

#[test]
fn edge_new_keeps_its_fields() {
    let edge = Edge::new(5, 1, 2);
    assert_eq!(edge, Edge { id: 5, start: 1, end: 2 });
    assert_eq!(edge.id, 5);
    assert_eq!(edge.start, 1);
    assert_eq!(edge.end, 2);
}

#[test]
fn empty_store_holds_nothing() {
    let g = Graph::new();
    assert_eq!(g.node_count(), 0);
    assert_eq!(g.edge_count(), 0);
    assert!(!g.contains_node(0));
    assert!(!g.contains_edge(0));
    assert!(g.node(0).is_none());
    assert!(g.edge(0).is_none());
}

#[test]
fn add_node_twice_keeps_the_node() {
    let g = Graph::new().add_node(3).add_edge(3, 4, 1).add_node(3);
    assert_eq!(g.node_count(), 2);
    assert_eq!(g.node(3).unwrap().starts, vec![1]);
    assert!(g.node(3).unwrap().ends.is_empty());
}

#[test]
fn add_edge_creates_missing_endpoints() {
    let g = Graph::new().add_edge(1, 2, 9);
    assert_eq!(g.node_count(), 2);
    assert_eq!(g.edge_count(), 1);
    assert_eq!(g.edge(9), Some(Edge { id: 9, start: 1, end: 2 }));
    assert_eq!(g.node(1).unwrap().starts, vec![9]);
    assert!(g.node(1).unwrap().ends.is_empty());
    assert!(g.node(2).unwrap().starts.is_empty());
    assert_eq!(g.node(2).unwrap().ends, vec![9]);
    assert_eq!(g.node(1).unwrap().id, 1);
    assert_eq!(g.node(2).unwrap().id, 2);
}

#[test]
fn add_edge_with_used_id_changes_nothing() {
    let g = Graph::new().add_edge(1, 2, 9).add_edge(5, 6, 9);
    assert_eq!(g.node_count(), 2);
    assert_eq!(g.edge_count(), 1);
    assert!(!g.contains_node(5));
    assert!(!g.contains_node(6));
    assert_eq!(g.edge(9), Some(Edge { id: 9, start: 1, end: 2 }));
}

#[test]
fn self_loop_leaves_and_arrives_at_its_node() {
    let g = Graph::new().add_edge(1, 1, 7);
    assert_eq!(g.node_count(), 1);
    assert_eq!(g.node(1).unwrap().starts, vec![7]);
    assert_eq!(g.node(1).unwrap().ends, vec![7]);
}

#[test]
fn seed_without_records_is_alone() {
    let g = create_graph(4, Vec::new());
    assert_eq!(g.node_count(), 1);
    assert_eq!(g.edge_count(), 0);
    assert!(g.contains_node(4));
}

#[test]
fn seed_untouched_by_records_is_alone() {
    let g = create_graph(1, vec![(5, 6, 9), (6, 7, 10)]);
    assert_eq!(g.node_count(), 1);
    assert_eq!(g.edge_count(), 0);
    assert!(g.contains_node(1));
    assert!(!g.contains_node(5));
    assert!(!g.contains_node(6));
    assert!(!g.contains_node(7));
}

#[test]
fn disconnected_edge_stays_out() {
    let g = create_graph(1, vec![(1, 2, 1), (2, 1, 2), (5, 6, 9)]);
    assert_eq!(g.node_count(), 2);
    assert_eq!(g.edge_count(), 2);
    assert!(g.contains_node(1));
    assert!(g.contains_node(2));
    assert!(!g.contains_node(5));
    assert!(!g.contains_node(6));
    assert!(!g.contains_edge(9));
    assert_eq!(g.node(1).unwrap().starts, vec![1]);
    assert_eq!(g.node(1).unwrap().ends, vec![2]);
    assert_eq!(g.node(2).unwrap().starts, vec![2]);
    assert_eq!(g.node(2).unwrap().ends, vec![1]);
}

#[test]
fn deferred_records_keep_their_endpoints() {
    let g = create_graph(1, vec![(3, 4, 30), (2, 3, 20), (1, 2, 10)]);
    assert_eq!(g.node_count(), 4);
    assert_eq!(g.edge_count(), 3);
    assert_eq!(g.edge(10), Some(Edge { id: 10, start: 1, end: 2 }));
    assert_eq!(g.edge(20), Some(Edge { id: 20, start: 2, end: 3 }));
    assert_eq!(g.edge(30), Some(Edge { id: 30, start: 3, end: 4 }));
    assert!(!g.contains_node(10));
    assert!(!g.contains_node(20));
    assert!(!g.contains_node(30));
}

#[test]
fn edges_are_listed_in_order_of_attachment() {
    // First pass: (2,3,23) is put off, then 40, 12 and 31 are attached in
    // turn (31 creates node 3). Second pass: 23 is attached.
    let g = create_graph(1, vec![(2, 3, 23), (1, 4, 40), (1, 2, 12), (3, 1, 31)]);
    assert_eq!(g.node_count(), 4);
    assert_eq!(g.edge_count(), 4);
    assert_eq!(g.node(1).unwrap().starts, vec![40, 12]);
    assert_eq!(g.node(1).unwrap().ends, vec![31]);
    assert_eq!(g.node(3).unwrap().starts, vec![31]);
    assert_eq!(g.node(3).unwrap().ends, vec![23]);
    assert_eq!(g.node(2).unwrap().starts, vec![23]);
    assert_eq!(g.node(2).unwrap().ends, vec![12]);
}

#[test]
fn repeated_id_first_attached_wins() {
    let g = create_graph(1, vec![(1, 2, 1), (2, 3, 1)]);
    assert_eq!(g.node_count(), 2);
    assert_eq!(g.edge_count(), 1);
    assert_eq!(g.edge(1), Some(Edge { id: 1, start: 1, end: 2 }));
    assert!(!g.contains_node(3));
}

#[test]
fn repeated_id_deferred_record_loses() {
    // (5,6,1) comes first but cannot be attached; (1,2,1) takes the id.
    let g = create_graph(1, vec![(5, 6, 1), (1, 2, 1), (2, 5, 2)]);
    assert_eq!(g.edge(1), Some(Edge { id: 1, start: 1, end: 2 }));
    assert_eq!(g.edge(2), Some(Edge { id: 2, start: 2, end: 5 }));
    assert_eq!(g.node_count(), 3);
    assert_eq!(g.edge_count(), 2);
    assert!(!g.contains_node(6));
}

#[test]
fn every_edge_id_is_stored_once() {
    let raw = vec![(1, 2, 1), (2, 1, 1), (1, 2, 1), (2, 3, 2), (3, 1, 2)];
    let g = create_graph(1, raw);
    assert_eq!(g.edge_count(), 2);
    assert_eq!(g.node(1).unwrap().starts, vec![1]);
    assert!(g.node(1).unwrap().ends.is_empty());
    assert_eq!(g.node(2).unwrap().starts, vec![2]);
    assert_eq!(g.node(2).unwrap().ends, vec![1]);
    assert_eq!(g.node(3).unwrap().ends, vec![2]);
}

#[test]
fn nodes_are_the_weakly_connected_component() {
    // Component of 1: {1, 2, 3, 4}, reached against the direction of edges
    // too; {7, 8} and {9} hang apart.
    let raw = vec![(7, 8, 1), (4, 3, 2), (3, 2, 3), (2, 1, 4), (8, 7, 5), (9, 9, 6)];
    let g = create_graph(1, raw);
    assert_eq!(g.node_count(), 4);
    assert_eq!(g.edge_count(), 3);
    for n in [1u32, 2, 3, 4] {
        assert!(g.contains_node(n));
    }
    for n in [7u32, 8, 9] {
        assert!(!g.contains_node(n));
    }
    for e in [2u32, 3, 4] {
        assert!(g.contains_edge(e));
    }
    for e in [1u32, 5, 6] {
        assert!(!g.contains_edge(e));
    }
}

#[test]
fn repeated_id_may_still_reach_every_node() {
    // (2,3,1) loses its identifier to (1,2,1), but node 3 comes in by (1,3,2).
    let g = create_graph(1, vec![(1, 2, 1), (2, 3, 1), (1, 3, 2)]);
    assert_eq!(g.node_count(), 3);
    assert_eq!(g.edge_count(), 2);
    assert!(g.contains_node(3));
    assert_eq!(g.edge(1), Some(Edge { id: 1, start: 1, end: 2 }));
    assert_eq!(g.node(2).unwrap().starts, Vec::<u32>::new());
    assert_eq!(g.node(3).unwrap().ends, vec![2]);
}
