use data_structures::graph::Graph;

#[test]
fn test_bfs_map() {
    let mut graph = Graph::new(2);

    let three_node = graph.add_node(3);
    let four_node = graph.add_node(4);
    let five_node = graph.add_node(5);

    graph.add_edge(graph.root, three_node, 0);
    graph.add_edge(graph.root, five_node, 0);
    graph.add_edge(three_node, graph.root, 0);
    graph.add_edge(three_node, four_node, 0);
    graph.add_edge(four_node, five_node, 0);

    let results = graph.bfs_map();

    assert_eq!(results, vec![2, 3, 5, 4]);
}

#[test]
fn test_dfs_map() {
    let mut graph = Graph::new(2);

    let three_node = graph.add_node(3);
    let four_node = graph.add_node(4);
    let five_node = graph.add_node(5);
    let six_node = graph.add_node(6);

    graph.add_edge(graph.root, three_node, 0);
    graph.add_edge(graph.root, five_node, 0);
    graph.add_edge(three_node, graph.root, 0);
    graph.add_edge(three_node, four_node, 0);
    graph.add_edge(four_node, five_node, 0);
    graph.add_edge(five_node, six_node, 0);

    let results = graph.dfs_map();

    assert_eq!(results, vec![2, 5, 6, 3, 4]);
}

#[test]
fn test_dijkstra() {
    let mut graph = Graph::new(2);

    let two_node = graph.root;
    let three_node = graph.add_node(3);
    let four_node = graph.add_node(4);
    let five_node = graph.add_node(5);

    graph.add_edge(two_node, three_node, 24);
    graph.add_edge(three_node, two_node, 24);

    graph.add_edge(three_node, four_node, 20);
    graph.add_edge(four_node, three_node, 20);

    graph.add_edge(three_node, five_node, 3);
    graph.add_edge(five_node, three_node, 3);

    graph.add_edge(four_node, five_node, 12);
    graph.add_edge(five_node, four_node, 12);

    assert_eq!(graph.dijkstra(three_node, two_node), vec![three_node, two_node]);
    assert_eq!(graph.dijkstra(three_node, five_node), vec![three_node, five_node]);
    assert_eq!(graph.dijkstra(three_node, four_node), vec![three_node, five_node, four_node]);
}

#[test]
fn test_dijkstra_unreachable() {
    let mut graph = Graph::new(0);
    let isolated = graph.add_node(1);
    // No edges at all: the second node cannot be reached.
    assert_eq!(graph.dijkstra(graph.root, isolated), Vec::<i32>::new());
    // A node is trivially reachable from itself.
    assert_eq!(graph.dijkstra(graph.root, graph.root), vec![graph.root]);
}

#[test]
fn test_dijkstra_invalid_ids() {
    let graph = Graph::new(0);
    assert_eq!(graph.dijkstra(5, 0), Vec::<i32>::new());
    assert_eq!(graph.dijkstra(0, -3), Vec::<i32>::new());
}

#[test]
fn test_traversal_invalid_root() {
    let mut graph = Graph::new(1);
    graph.add_node(2);
    graph.set_root(99);
    assert_eq!(graph.bfs_map(), Vec::<i32>::new());
    assert_eq!(graph.dfs_map(), Vec::<i32>::new());
}

#[test]
fn test_bfs_ids_order() {
    let mut graph = Graph::new(10);
    let a = graph.add_node(11);
    let b = graph.add_node(12);
    graph.add_edge(graph.root, a, 1);
    graph.add_edge(a, b, 1);
    assert_eq!(graph.bfs_ids(), vec![0, a, b]);
    assert_eq!(graph.dfs_ids(), vec![0, a, b]);
}

#[test]
fn test_bfs_diamond_visits_once() {
    // Two paths lead to the same node; it is visited exactly once.
    let mut graph = Graph::new(0);
    let a = graph.add_node(1);
    let b = graph.add_node(2);
    let c = graph.add_node(3);
    graph.add_edge(graph.root, a, 1);
    graph.add_edge(graph.root, b, 1);
    graph.add_edge(a, c, 1);
    graph.add_edge(b, c, 1);
    assert_eq!(graph.bfs_ids(), vec![0, a, b, c]);
}
