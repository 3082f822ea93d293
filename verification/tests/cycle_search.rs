use graph_cycles::search::occurs;
use graph_cycles::{create_graph, dfs1, find_elementary_cycles, Graph, SearchError};

fn two_cycle() -> Graph {
    create_graph(1, vec![(1, 2, 1), (2, 1, 2)])
}

fn with_self_loop() -> Graph {
    create_graph(1, vec![(1, 1, 7), (1, 2, 1), (2, 1, 2)])
}

#[test]
fn two_cycle_is_found_once() {
    let found = find_elementary_cycles(&two_cycle(), 1, 1, 0, 0);
    assert_eq!(found, Ok(vec![vec![1, 2]]));
}

#[test]
fn edge_cap_of_one_finds_nothing() {
    let found = find_elementary_cycles(&two_cycle(), 1, 1, 1, 0);
    assert_eq!(found, Ok(Vec::new()));
}

#[test]
fn edge_cap_excludes_its_own_length() {
    assert_eq!(find_elementary_cycles(&two_cycle(), 1, 1, 2, 0), Ok(Vec::new()));
    assert_eq!(find_elementary_cycles(&two_cycle(), 1, 1, 3, 0), Ok(vec![vec![1, 2]]));
}

#[test]
fn self_loop_alone_is_no_cycle() {
    let g = create_graph(1, vec![(1, 1, 7)]);
    assert_eq!(find_elementary_cycles(&g, 1, 1, 0, 0), Ok(Vec::new()));
}

#[test]
fn search_goes_on_past_a_self_loop() {
    let found = find_elementary_cycles(&with_self_loop(), 1, 1, 0, 0);
    assert_eq!(found, Ok(vec![vec![7, 1, 2], vec![1, 2], vec![1, 2, 7]]));
}

#[test]
fn result_cap_keeps_the_first_results() {
    let g = with_self_loop();
    assert_eq!(find_elementary_cycles(&g, 1, 1, 0, 1), Ok(vec![vec![7, 1, 2]]));
    assert_eq!(find_elementary_cycles(&g, 1, 1, 0, 2), Ok(vec![vec![7, 1, 2], vec![1, 2]]));
    assert_eq!(
        find_elementary_cycles(&g, 1, 1, 0, 3),
        Ok(vec![vec![7, 1, 2], vec![1, 2], vec![1, 2, 7]])
    );
    assert_eq!(
        find_elementary_cycles(&g, 1, 1, 0, 100),
        Ok(vec![vec![7, 1, 2], vec![1, 2], vec![1, 2, 7]])
    );
}

#[test]
fn edge_cap_bounds_every_cycle() {
    let g = with_self_loop();
    assert_eq!(find_elementary_cycles(&g, 1, 1, 3, 0), Ok(vec![vec![1, 2]]));
    assert_eq!(
        find_elementary_cycles(&g, 1, 1, 4, 0),
        Ok(vec![vec![7, 1, 2], vec![1, 2], vec![1, 2, 7]])
    );
}

#[test]
fn least_length_is_min_nodes_less_one() {
    let g = with_self_loop();
    assert_eq!(
        find_elementary_cycles(&g, 1, 3, 0, 0),
        Ok(vec![vec![7, 1, 2], vec![1, 2], vec![1, 2, 7]])
    );
    assert_eq!(
        find_elementary_cycles(&g, 1, 4, 0, 0),
        Ok(vec![vec![7, 1, 2], vec![1, 2, 7]])
    );
    assert_eq!(find_elementary_cycles(&g, 1, 5, 0, 0), Ok(Vec::new()));
    assert_eq!(find_elementary_cycles(&g, 1, u16::MAX, 0, 0), Ok(Vec::new()));
}

#[test]
fn min_nodes_of_zero_is_refused() {
    assert_eq!(find_elementary_cycles(&two_cycle(), 1, 0, 0, 0), Err(SearchError::InvalidBound));
    assert_eq!(find_elementary_cycles(&two_cycle(), 9, 0, 0, 0), Err(SearchError::InvalidBound));
}

#[test]
fn absent_target_is_refused() {
    assert_eq!(find_elementary_cycles(&two_cycle(), 9, 1, 0, 0), Err(SearchError::TargetAbsent));
    assert_eq!(find_elementary_cycles(&Graph::new(), 0, 1, 0, 0), Err(SearchError::TargetAbsent));
}

#[test]
fn search_follows_the_order_of_attachment() {
    let g = create_graph(1, vec![(1, 2, 1), (1, 3, 3), (2, 1, 2), (3, 1, 4)]);
    assert_eq!(
        find_elementary_cycles(&g, 1, 1, 0, 0),
        Ok(vec![vec![1, 2], vec![1, 2, 3, 4], vec![3, 4], vec![3, 4, 1, 2]])
    );
    let g = create_graph(1, vec![(1, 3, 3), (1, 2, 1), (2, 1, 2), (3, 1, 4)]);
    assert_eq!(
        find_elementary_cycles(&g, 1, 1, 0, 0),
        Ok(vec![vec![3, 4], vec![3, 4, 1, 2], vec![1, 2], vec![1, 2, 3, 4]])
    );
}

#[test]
fn inner_node_is_not_entered_twice() {
    // 1 -> 2 -> 3 -> 2 -> 1: the walk 1, 2, 3, 2, 1 would leave 2 twice.
    let g = create_graph(1, vec![(1, 2, 1), (2, 3, 2), (3, 2, 3), (2, 1, 4)]);
    assert_eq!(find_elementary_cycles(&g, 1, 1, 0, 0), Ok(vec![vec![1, 4]]));
}

#[test]
fn parallel_edges_give_separate_cycles() {
    let g = create_graph(1, vec![(1, 2, 1), (1, 2, 2), (2, 1, 3)]);
    assert_eq!(
        find_elementary_cycles(&g, 1, 1, 0, 0),
        Ok(vec![vec![1, 3], vec![2, 3]])
    );
}

#[test]
fn target_other_than_the_seed() {
    let g = create_graph(1, vec![(1, 2, 1), (2, 3, 2), (3, 2, 3), (2, 1, 4)]);
    assert_eq!(
        find_elementary_cycles(&g, 2, 1, 0, 0),
        Ok(vec![vec![2, 3], vec![2, 3, 4, 1], vec![4, 1], vec![4, 1, 2, 3]])
    );
    assert_eq!(find_elementary_cycles(&g, 3, 1, 0, 0), Ok(vec![vec![3, 2]]));
}

#[test]
fn no_cycle_in_a_tree() {
    let g = create_graph(1, vec![(1, 2, 1), (1, 3, 2), (3, 4, 3)]);
    assert_eq!(find_elementary_cycles(&g, 1, 1, 0, 0), Ok(Vec::new()));
}

#[test]
fn every_found_cycle_is_a_closed_walk() {
    let raw = vec![
        (1, 2, 1),
        (2, 3, 2),
        (3, 1, 3),
        (2, 1, 4),
        (3, 4, 5),
        (4, 1, 6),
        (1, 1, 7),
        (4, 2, 8),
    ];
    let g = create_graph(1, raw);
    let found = find_elementary_cycles(&g, 1, 1, 6, 0).unwrap();
    assert!(!found.is_empty());
    for (i, cycle) in found.iter().enumerate() {
        assert!(cycle.len() >= 2);
        assert!(cycle.len() <= 5);
        assert_eq!(g.edge(cycle[0]).unwrap().start, 1);
        assert_eq!(g.edge(cycle[cycle.len() - 1]).unwrap().end, 1);
        for k in 0..cycle.len() {
            for l in (k + 1)..cycle.len() {
                assert_ne!(cycle[k], cycle[l]);
                let a = g.edge(cycle[k]).unwrap().start;
                let b = g.edge(cycle[l]).unwrap().start;
                assert!(a != b || a == 1);
            }
            if k + 1 < cycle.len() {
                assert_eq!(g.edge(cycle[k]).unwrap().end, g.edge(cycle[k + 1]).unwrap().start);
            }
        }
        for other in &found[..i] {
            assert_ne!(other, cycle);
        }
    }
    let capped = find_elementary_cycles(&g, 1, 1, 6, 4).unwrap();
    assert_eq!(capped.len(), 4);
    assert_eq!(&capped[..], &found[..4]);
}

#[test]
fn dfs1_appends_to_what_was_found() {
    let g = two_cycle();
    let mut visited = Vec::new();
    let mut edges_used = Vec::new();
    let mut found = vec![vec![99]];
    dfs1(&g, 1, &mut visited, &mut edges_used, 1, 1, 10, 0, &mut found);
    assert_eq!(found, vec![vec![99], vec![1, 2]]);
    assert!(visited.is_empty());
    assert!(edges_used.is_empty());
}

#[test]
fn dfs1_stops_once_the_limit_is_reached() {
    let g = with_self_loop();
    let mut visited = Vec::new();
    let mut edges_used = Vec::new();
    let mut found = vec![vec![99], vec![98]];
    dfs1(&g, 1, &mut visited, &mut edges_used, 1, 1, 10, 2, &mut found);
    assert_eq!(found, vec![vec![99], vec![98]]);
    dfs1(&g, 1, &mut visited, &mut edges_used, 1, 1, 10, 3, &mut found);
    assert_eq!(found, vec![vec![99], vec![98], vec![7, 1, 2]]);
}

#[test]
fn dfs1_with_zero_edge_bound_reports_nothing() {
    let g = two_cycle();
    let mut visited = Vec::new();
    let mut edges_used = Vec::new();
    let mut found = Vec::new();
    dfs1(&g, 1, &mut visited, &mut edges_used, 1, 1, 0, 0, &mut found);
    assert!(found.is_empty());
}

#[test]
fn dfs1_goes_on_from_a_walk_under_way() {
    let g = two_cycle();
    let mut visited = vec![1];
    let mut edges_used = vec![1];
    let mut found = Vec::new();
    dfs1(&g, 2, &mut visited, &mut edges_used, 1, 1, 10, 0, &mut found);
    assert_eq!(found, vec![vec![1, 2]]);
    assert_eq!(visited, vec![1]);
    assert_eq!(edges_used, vec![1]);
}

#[test]
fn occurs_finds_what_is_there() {
    let v = vec![4, 8, 15];
    assert!(occurs(&v, 4));
    assert!(occurs(&v, 15));
    assert!(!occurs(&v, 16));
    assert!(!occurs(&Vec::new(), 0));
}
