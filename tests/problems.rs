use graph_problems::{
    find_distance, find_path, has_cycle, topological_sort, Graph, GraphType, InvalidGraphError,
    SearchType, UnitWeightedGraph, WeightedGraph,
};

fn directed(nodes: usize, edges: &str) -> Graph {
    <Graph as UnitWeightedGraph>::new(nodes, edges, GraphType::DIRECTED).unwrap()
}

fn weighted(nodes: usize, edges: &str, weights: &str) -> Graph {
    <Graph as WeightedGraph>::new(nodes, edges, weights, GraphType::DIRECTED).unwrap()
}

#[test]
fn should_find_path_using_bfs() -> Result<(), InvalidGraphError> {
    let g = <Graph as UnitWeightedGraph>::new(
        4,
        "[[1, 2], [0, 2], [2, 3], [1, 3]]",
        GraphType::DIRECTED,
    )?;

    assert!(!find_path(1, 0, &g, SearchType::BFS));
    assert!(find_path(0, 3, &g, SearchType::BFS));

    Ok(())
}

#[test]
fn should_find_path_using_dfs() -> Result<(), InvalidGraphError> {
    let g = <Graph as UnitWeightedGraph>::new(
        4,
        "[[1, 2], [0, 2], [2, 3], [1, 3]]",
        GraphType::DIRECTED,
    )?;
    assert!(find_path(0, 3, &g, SearchType::DFS));

    let g = <Graph as UnitWeightedGraph>::new(
        6,
        "[[0,1],[0,2],[3,5],[5,4],[4,3]]",
        GraphType::DIRECTED,
    )?;
    assert!(!find_path(0, 5, &g, SearchType::DFS));

    let g = <Graph as UnitWeightedGraph>::new(3, "[[0,1],[1,2],[2,0]]", GraphType::DIRECTED)?;
    assert!(find_path(0, 2, &g, SearchType::DFS));

    let g = <Graph as WeightedGraph>::new(
        6,
        "[[0,1], [0,3], [1, 2], [3, 2], [2, 4], [4, 5]]",
        "[2, 3, 6, 3, 4, 2 ]",
        GraphType::DIRECTED,
    )?;
    assert!(find_path(0, 5, &g, SearchType::DFS));

    Ok(())
}

#[test]
fn should_match_topo_logical_sort_given_graph() -> Result<(), InvalidGraphError> {
    let g = <Graph as UnitWeightedGraph>::new(
        6,
        "[[5,2], [5,0], [4, 0], [4,1], [2, 3], [3, 1]]",
        GraphType::DIRECTED,
    )?;
    assert_eq!(topological_sort(&g), vec![5, 4, 2, 3, 1, 0]);

    let g = <Graph as UnitWeightedGraph>::new(4, "[[1, 0], [2, 0], [3, 0]]", GraphType::DIRECTED)?;
    assert_eq!(topological_sort(&g), vec![3, 2, 1, 0]);

    Ok(())
}

#[test]
fn should_find_shortest_distance_to_given_node_from_start() -> Result<(), InvalidGraphError> {
    let g = <Graph as WeightedGraph>::new(
        6,
        "[[0,1], [0,3], [1, 2], [3, 2], [2, 4], [4, 5]]",
        "[2, 3, 6, 3, 4, 2 ]",
        GraphType::DIRECTED,
    )?;

    assert_eq!(find_distance(&g, 0, 5), 12);
    assert_eq!(find_distance(&g, 1, 5), 12);
    assert_eq!(find_distance(&g, 3, 4), 7);

    Ok(())
}

#[test]
fn both_searches_agree_where_a_node_is_met_twice() {
    // 2 is pushed twice before 3 is looked at.
    let g = directed(4, "[[0,3],[0,1],[0,2],[1,2]]");
    assert!(find_path(0, 3, &g, SearchType::DFS));
    assert!(find_path(0, 3, &g, SearchType::BFS));
    assert!(!find_path(3, 0, &g, SearchType::DFS));
    assert!(!find_path(3, 0, &g, SearchType::BFS));
}

#[test]
fn a_node_reaches_itself_even_outside_the_graph() {
    let g = directed(2, "[[0,1]]");
    assert!(find_path(7, 7, &g, SearchType::BFS));
    assert!(find_path(7, 7, &g, SearchType::DFS));
    assert!(!find_path(7, 0, &g, SearchType::BFS));
    assert!(!find_path(0, 7, &g, SearchType::DFS));
    assert!(find_path(0, 1, &g, SearchType::DFS));
}

#[test]
fn distance_on_cycles_parallel_edges_and_unreachable_nodes() {
    let g = weighted(3, "[[0,1],[1,0],[0,2]]", "[1,1,5]");
    assert_eq!(find_distance(&g, 0, 2), 5);
    assert_eq!(find_distance(&g, 1, 2), 6);
    assert_eq!(find_distance(&g, 2, 0), 0);
    assert_eq!(find_distance(&g, 1, 1), 0);
    assert_eq!(find_distance(&g, 0, 9), 0);

    let g = weighted(3, "[[0,1],[0,1],[1,2]]", "[9,4,3]");
    assert_eq!(find_distance(&g, 0, 2), 7);
}

#[test]
fn distance_that_does_not_fit_counts_as_no_walk() {
    let g = weighted(
        3,
        "[[0,1],[1,2],[0,2]]",
        "[18446744073709551615,1,7]",
    );
    assert_eq!(find_distance(&g, 0, 2), 7);
    assert_eq!(find_distance(&g, 0, 1), usize::MAX);
    let g = weighted(3, "[[0,1],[1,2]]", "[18446744073709551615,1,1]");
    assert_eq!(find_distance(&g, 0, 2), 0);
}

#[test]
fn topological_sort_lists_each_node_once() {
    let g = directed(5, "[[0,1],[1,2],[2,3],[3,4],[4,0]]");
    let order = topological_sort(&g);
    let mut sorted = order.clone();
    sorted.sort();
    assert_eq!(sorted, vec![0, 1, 2, 3, 4]);
    assert_eq!(order, vec![4, 2, 3, 0, 1]);
    let empty = directed(0, "[]");
    assert_eq!(topological_sort(&empty), Vec::<usize>::new());
}

#[test]
fn cycles_in_the_undirected_sense() {
    let triangle = directed(3, "[[0,1],[1,2],[2,0]]");
    assert!(has_cycle(&triangle));
    let path = directed(3, "[[0,1],[1,2]]");
    assert!(!has_cycle(&path));
    let both_ways = directed(2, "[[0,1],[1,0]]");
    assert!(!has_cycle(&both_ways));
    let undirected =
        <Graph as UnitWeightedGraph>::new(3, "[[0,1],[1,2]]", GraphType::UNDIRECTED).unwrap();
    assert!(!has_cycle(&undirected));
    let self_loop = directed(2, "[[1,1]]");
    assert!(has_cycle(&self_loop));
    let two_parts = directed(5, "[[0,1],[3,4],[1,2],[4,2],[2,3]]");
    assert!(has_cycle(&two_parts));
}
