use graph_cycles::{create_graph, find_elementary_cycles, CycleEnumerator, Graph, SearchError};

fn drain(g: &Graph, target: u32, min_nodes: u16, max_nodes: u16, max_paths: u32) -> Vec<Vec<u32>> {
    let mut search = CycleEnumerator::new(g, target, min_nodes, max_nodes, max_paths).unwrap();
    let mut found = Vec::new();
    loop {
        let (cycle, rest) = search.next_cycle();
        search = rest;
        match cycle {
            Some(cycle) => found.push(cycle),
            None => break,
        }
    }
    let (again, _) = search.next_cycle();
    assert_eq!(again, None);
    found
}

fn busy_graph() -> Graph {
    create_graph(
        1,
        vec![
            (1, 2, 1),
            (2, 3, 2),
            (3, 1, 3),
            (2, 1, 4),
            (3, 4, 5),
            (4, 1, 6),
            (1, 1, 7),
            (4, 2, 8),
            (2, 2, 9),
            (1, 3, 10),
        ],
    )
}

#[test]
fn enumerator_hands_out_one_cycle_at_a_time() {
    let g = create_graph(1, vec![(1, 1, 7), (1, 2, 1), (2, 1, 2)]);
    let search = CycleEnumerator::new(&g, 1, 1, 0, 0).unwrap();
    let (first, search) = search.next_cycle();
    assert_eq!(first, Some(vec![7, 1, 2]));
    let (second, search) = search.next_cycle();
    assert_eq!(second, Some(vec![1, 2]));
    let (third, search) = search.next_cycle();
    assert_eq!(third, Some(vec![1, 2, 7]));
    let (fourth, search) = search.next_cycle();
    assert_eq!(fourth, None);
    let (fifth, _) = search.next_cycle();
    assert_eq!(fifth, None);
}

#[test]
fn enumerator_stops_at_the_result_cap() {
    let g = create_graph(1, vec![(1, 1, 7), (1, 2, 1), (2, 1, 2)]);
    let search = CycleEnumerator::new(&g, 1, 1, 0, 2).unwrap();
    let (first, search) = search.next_cycle();
    assert_eq!(first, Some(vec![7, 1, 2]));
    let (second, search) = search.next_cycle();
    assert_eq!(second, Some(vec![1, 2]));
    let (third, _) = search.next_cycle();
    assert_eq!(third, None);
}

#[test]
fn enumerator_agrees_with_the_search() {
    let g = busy_graph();
    for target in [1u32, 2, 3, 4] {
        for min_nodes in [1u16, 3, 4, 5, 6] {
            for max_nodes in [0u16, 1, 2, 3, 4, 5, 7] {
                for max_paths in [0u32, 1, 2, 5, 1000] {
                    let all = find_elementary_cycles(&g, target, min_nodes, max_nodes, max_paths);
                    assert_eq!(
                        all,
                        Ok(drain(&g, target, min_nodes, max_nodes, max_paths))
                    );
                }
            }
        }
    }
    assert!(find_elementary_cycles(&g, 1, 1, 0, 0).unwrap().len() > 5);
}

#[test]
fn enumerator_two_cycle() {
    let g = create_graph(1, vec![(1, 2, 1), (2, 1, 2)]);
    assert_eq!(drain(&g, 1, 1, 0, 0), vec![vec![1, 2]]);
    assert_eq!(drain(&g, 1, 1, 1, 0), Vec::<Vec<u32>>::new());
    assert_eq!(drain(&g, 1, 1, 2, 0), Vec::<Vec<u32>>::new());
    assert_eq!(drain(&g, 1, 1, 3, 0), vec![vec![1, 2]]);
    assert_eq!(drain(&g, 1, 4, 0, 0), Vec::<Vec<u32>>::new());
}

#[test]
fn enumerator_refuses_what_the_search_refuses() {
    let g = create_graph(1, vec![(1, 2, 1), (2, 1, 2)]);
    assert_eq!(CycleEnumerator::new(&g, 1, 0, 0, 0).err(), Some(SearchError::InvalidBound));
    assert_eq!(CycleEnumerator::new(&g, 3, 0, 0, 0).err(), Some(SearchError::InvalidBound));
    assert_eq!(CycleEnumerator::new(&g, 3, 1, 0, 0).err(), Some(SearchError::TargetAbsent));
    assert!(CycleEnumerator::new(&g, 2, 1, 0, 0).is_ok());
}

#[test]
fn enumerator_walks_a_long_ring() {
    let n: u32 = 4000;
    let mut raw = Vec::new();
    for i in 1..=n {
        raw.push((i, if i == n { 1 } else { i + 1 }, i));
    }
    let g = create_graph(1, raw);
    assert_eq!(g.node_count(), n as usize);
    assert_eq!(g.edge_count(), n as usize);
    let found = drain(&g, 1, 1, 0, 0);
    assert_eq!(found.len(), 1);
    let expected: Vec<u32> = (1..=n).collect();
    assert_eq!(found[0], expected);
    assert!(drain(&g, 1, 1, n as u16, 0).is_empty());
    assert_eq!(drain(&g, 1, n as u16 + 1, n as u16 + 1, 0).len(), 1);
    assert!(drain(&g, 1, n as u16 + 2, 0, 0).is_empty());
}
