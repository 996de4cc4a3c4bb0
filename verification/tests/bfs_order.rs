use webgraph::graphs::{BfsOrder, VecGraph};

#[test]
fn test_start() {
    // 4 -> 0 -> 2
    //       `-> 3
    // 1 -> 5
    let mut graph = VecGraph::new();

    for i in 0..=5 {
        graph.add_node(i);
    }
    graph.add_arc(4, 0);
    graph.add_arc(0, 2);
    graph.add_arc(0, 3);
    graph.add_arc(1, 5);

    let order: Vec<usize> = BfsOrder::new(&graph).into_vec();

    assert_eq!(order, vec![0, 2, 3, 1, 5, 4]);
}

#[test]
fn test_start_orphan() {
    // 0 -> 4 -> 2
    //       `-> 3
    // 1 -> 5
    let mut graph = VecGraph::new();

    for i in 0..=5 {
        graph.add_node(i);
    }
    graph.add_arc(0, 4);
    graph.add_arc(4, 2);
    graph.add_arc(4, 3);
    graph.add_arc(1, 5);

    let order: Vec<usize> = BfsOrder::new(&graph).into_vec();

    assert_eq!(order, vec![0, 4, 2, 3, 1, 5]);
}

#[test]
fn bfs_visits_each_node_once() {
    let mut graph = VecGraph::new();
    for i in 0..=7 {
        graph.add_node(i);
    }
    graph.add_arc(0, 1);
    graph.add_arc(1, 2);
    graph.add_arc(2, 0);
    graph.add_arc(3, 4);
    graph.add_arc(4, 3);
    let order = BfsOrder::new(&graph).into_vec();
    let mut seen = vec![false; 8];
    for &v in &order {
        assert!(!seen[v], "{} was seen twice", v);
        seen[v] = true;
    }
    assert_eq!(order.len(), 8);
}
