use graph_problems::{
    parse_array, ArrParseErrorKind, Edge, Graph, GraphErrorKind, GraphType, InvalidGraphError,
    UnitWeightedGraph, WeightedGraph,
};

fn sorted_edges(g: &Graph, node: usize) -> Vec<Edge> {
    let mut edges: Vec<Edge> = g.edges_for(node).into_iter().cloned().collect();
    edges.sort();
    edges
}

#[test]
fn should_create_graph() {
    let graph =
        <Graph as UnitWeightedGraph>::new(3, "[[0, 1], [1, 2], [2, 0]]", GraphType::DIRECTED)
            .unwrap();

    assert_eq!(graph.edges_for(0), vec![&Edge::new(1, 1)]);
    assert_eq!(graph.edges_for(1), vec![&Edge::new(2, 1)]);
    assert_eq!(graph.edges_for(2), vec![&Edge::new(0, 1)]);
}

#[test]
fn should_pass_this_test() {
    let graph = <Graph as UnitWeightedGraph>::new(
        4,
        "[[1, 2], [0, 2], [2, 3], [1, 3]]",
        GraphType::DIRECTED,
    )
    .unwrap();

    assert_eq!(graph.edges_for(0), vec![&Edge::new(2, 1)]);
    assert_eq!(graph.edges_for(1), vec![&Edge::new(2, 1), &Edge::new(3, 1)]);
    assert_eq!(graph.edges_for(2), vec![&Edge::new(3, 1)]);
    assert_eq!(graph.edges_for(3), Vec::<&Edge>::new());
}

#[test]
fn should_error_when_invalid_char_in_edges() {
    assert!(
        <Graph as UnitWeightedGraph>::new(2, "[[0,1] , 239, [1, 0]]", GraphType::DIRECTED)
            .is_err()
    );
}

#[test]
fn should_create_weighted_graph() {
    let g = <Graph as WeightedGraph>::new(
        4,
        "[[1, 2], [0, 2], [2, 3], [1, 3]]",
        "[2, 7, 1, 4]",
        GraphType::DIRECTED,
    )
    .unwrap();

    assert_eq!(g.edges_for(0), vec![&Edge::new(2, 7)]);
    assert_eq!(g.edges_for(1), vec![&Edge::new(2, 2), &Edge::new(3, 4)]);
    assert_eq!(g.edges_for(2), vec![&Edge::new(3, 1)]);
    assert_eq!(g.edges_for(3), Vec::<&Edge>::new());
}

#[test]
fn should_parse_arrays() {
    let arr_str = "[1, 2, 3, 4]";
    assert_eq!(parse_array(arr_str).unwrap(), vec![1, 2, 3, 4]);

    let arr_str = "[1,2,3,4]";
    assert_eq!(parse_array(arr_str).unwrap(), vec![1, 2, 3, 4]);

    let arr_str = "[121,12, 3, 42192]";
    assert_eq!(parse_array(arr_str).unwrap(), vec![121, 12, 3, 42192]);
}

#[test]
fn should_parse_arr_if_found_from_start() {
    let arr_str = "[1,2],3,2,ab";
    assert_eq!(parse_array(arr_str).unwrap(), vec![1, 2]);
}

#[test]
fn should_error_when_not_starts_with_array() {
    let arr_str = "2,3,4[3,4]";
    assert!(parse_array(arr_str).is_err());
}

#[test]
fn should_error_when_no_end_found() {
    let arr_str = "[1, 2, 3,4";
    assert!(parse_array(arr_str).is_err());
}

// `sort` sorts in place and yields `()`, so these comparisons hold whatever
// the lists hold; the tests after them check the lists themselves.
#[test]
fn should_create_undirected_graph() -> Result<(), InvalidGraphError> {
    let g = <Graph as UnitWeightedGraph>::new(3, "[[0,1], [1,2], [2, 0]]", GraphType::UNDIRECTED)?;

    assert_eq!(
        g.edges_for(0).into_iter().cloned().collect::<Vec<Edge>>().sort(),
        vec![Edge::new(1, 1), Edge::new(2, 1)].sort()
    );
    assert_eq!(
        g.edges_for(1).into_iter().cloned().collect::<Vec<Edge>>().sort(),
        vec![Edge::new(0, 1), Edge::new(2, 1)].sort()
    );
    assert_eq!(
        g.edges_for(2).into_iter().cloned().collect::<Vec<Edge>>().sort(),
        vec![Edge::new(0, 1), Edge::new(1, 1)].sort()
    );

    Ok(())
}

#[test]
fn should_create_undirected_weighted_graph() -> Result<(), InvalidGraphError> {
    let g = <Graph as WeightedGraph>::new(
        3,
        "[[0,1], [1,2], [2, 0]]",
        "[2, 10, 7]",
        GraphType::UNDIRECTED,
    )?;

    assert_eq!(
        g.edges_for(0).into_iter().cloned().collect::<Vec<Edge>>().sort(),
        vec![Edge::new(1, 2), Edge::new(2, 2)].sort()
    );
    assert_eq!(
        g.edges_for(1).into_iter().cloned().collect::<Vec<Edge>>().sort(),
        vec![Edge::new(0, 10), Edge::new(2, 10)].sort()
    );
    assert_eq!(
        g.edges_for(2).into_iter().cloned().collect::<Vec<Edge>>().sort(),
        vec![Edge::new(0, 7), Edge::new(1, 7)].sort()
    );

    Ok(())
}

#[test]
fn undirected_graph_lists_each_edge_both_ways() {
    let g = <Graph as UnitWeightedGraph>::new(3, "[[0,1], [1,2], [2, 0]]", GraphType::UNDIRECTED)
        .unwrap();
    assert_eq!(sorted_edges(&g, 0), vec![Edge::new(1, 1), Edge::new(2, 1)]);
    assert_eq!(sorted_edges(&g, 1), vec![Edge::new(0, 1), Edge::new(2, 1)]);
    assert_eq!(sorted_edges(&g, 2), vec![Edge::new(0, 1), Edge::new(1, 1)]);
}

#[test]
fn undirected_weighted_graph_keeps_each_weight_both_ways() {
    let g = <Graph as WeightedGraph>::new(
        3,
        "[[0,1], [1,2], [2, 0]]",
        "[2, 10, 7]",
        GraphType::UNDIRECTED,
    )
    .unwrap();
    assert_eq!(g.edges_for(0), vec![&Edge::new(1, 2), &Edge::new(2, 7)]);
    assert_eq!(g.edges_for(1), vec![&Edge::new(0, 2), &Edge::new(2, 10)]);
    assert_eq!(g.edges_for(2), vec![&Edge::new(1, 10), &Edge::new(0, 7)]);
}

#[test]
fn neighbours_and_sizes() {
    let g = <Graph as UnitWeightedGraph>::new(
        4,
        "[[1, 2], [0, 2], [2, 3], [1, 3]]",
        GraphType::DIRECTED,
    )
    .unwrap();
    assert_eq!(g.nodes(), 4);
    assert_eq!(g.neighbours(1), vec![2, 3]);
    assert_eq!(g.neighbours(3), Vec::<usize>::new());
    assert_eq!(g.neighbours(9), Vec::<usize>::new());
    assert_eq!(g.all_edges(), vec![(0, 2), (1, 2), (1, 3), (2, 3)]);
    let e = Edge::new(5, 8);
    assert_eq!(e.to(), 5);
    assert_eq!(e.cost(), 8);
}

#[test]
fn unit_graph_with_no_nodes_is_empty() {
    let g = <Graph as UnitWeightedGraph>::new(0, "[]", GraphType::DIRECTED).unwrap();
    assert_eq!(g.nodes(), 0);
}

#[test]
fn text_after_the_outer_list_is_ignored() {
    let g = <Graph as UnitWeightedGraph>::new(2, " [[0,1]] trailing", GraphType::DIRECTED).unwrap();
    assert_eq!(g.edges_for(0), vec![&Edge::new(1, 1)]);
    let g = <Graph as UnitWeightedGraph>::new(2, "][[0,1]]", GraphType::DIRECTED).unwrap();
    assert_eq!(g.all_edges(), Vec::<(usize, usize)>::new());
}

#[test]
fn an_inner_bracket_starts_the_edge_afresh() {
    let g = <Graph as UnitWeightedGraph>::new(3, "[[0,[1,2]]", GraphType::DIRECTED).unwrap();
    assert_eq!(g.all_edges(), vec![(1, 2)]);
}

fn graph_error(nodes: usize, edges: &str, weights: &str) -> GraphErrorKind {
    <Graph as WeightedGraph>::new(nodes, edges, weights, GraphType::DIRECTED)
        .unwrap_err()
        .kind
}

#[test]
fn each_graph_error_has_its_input() {
    assert_eq!(graph_error(2, "[[0,1]]", "[1]"), GraphErrorKind::WeightCount);
    assert_eq!(graph_error(2, "[[0,1],[1,0],[0,0]]", "[1,2]"), GraphErrorKind::WeightCount);
    assert_eq!(
        graph_error(2, "[[0,1]]", "[1,2"),
        GraphErrorKind::Weights(ArrParseErrorKind::MissingEnd)
    );
    assert_eq!(
        graph_error(2, "[[0,x]]", "[1,2]"),
        GraphErrorKind::EdgeList(ArrParseErrorKind::InvalidNumber)
    );
    assert_eq!(graph_error(3, "[[0,1,2]]", "[1,2,3]"), GraphErrorKind::EdgeArity);
    assert_eq!(graph_error(2, "[[0,5]]", "[1,2]"), GraphErrorKind::NodeOutOfRange);
    assert_eq!(graph_error(2, "[[5,0]]", "[1,2]"), GraphErrorKind::NodeOutOfRange);
    assert_eq!(graph_error(2, "[[0,1], x]", "[1,2]"), GraphErrorKind::UnknownChar('x'));
    assert_eq!(graph_error(2, "x[[0,1]]", "[1,2]"), GraphErrorKind::UnknownChar('x'));
}

#[test]
fn error_messages() {
    let e = <Graph as UnitWeightedGraph>::new(2, "[[0,1] , 239, [1, 0]]", GraphType::DIRECTED)
        .unwrap_err();
    assert_eq!(e.message(), "Unknown character in edges string");
    let e = parse_array("2,3").unwrap_err();
    assert_eq!(e.message(), "Expecting [ at the start of array");
}

#[test]
fn array_parse_edge_cases() {
    assert_eq!(parse_array("[+5, 07]").unwrap(), vec![5, 7]);
    assert_eq!(parse_array("[1 2,3]").unwrap(), vec![12, 3]);
    assert_eq!(parse_array(" 4]").unwrap(), vec![4]);
    assert_eq!(
        parse_array("[18446744073709551615]").unwrap(),
        vec![usize::MAX]
    );
    assert_eq!(
        parse_array("[18446744073709551616]").unwrap_err().kind,
        ArrParseErrorKind::InvalidNumber
    );
    assert_eq!(parse_array("[]").unwrap_err().kind, ArrParseErrorKind::InvalidNumber);
    assert_eq!(parse_array("[1,]").unwrap_err().kind, ArrParseErrorKind::InvalidNumber);
    assert_eq!(parse_array("[-1]").unwrap_err().kind, ArrParseErrorKind::InvalidNumber);
    assert_eq!(parse_array(",1]").unwrap_err().kind, ArrParseErrorKind::InvalidNumber);
    assert_eq!(parse_array("").unwrap_err().kind, ArrParseErrorKind::MissingEnd);
    assert_eq!(parse_array("[1,x").unwrap_err().kind, ArrParseErrorKind::MissingEnd);
    assert_eq!(parse_array("[1,x,2").unwrap_err().kind, ArrParseErrorKind::InvalidNumber);
    assert_eq!(parse_array("x[1]").unwrap_err().kind, ArrParseErrorKind::MissingStart);
}
