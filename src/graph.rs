use crate::parse::{array_result, chars_of, parse_array, parse_array_chars, ArrParseErrorKind};
use vstd::prelude::*;

verus! {

/// An edge as its graph stores it: the node that it leads to, and its weight.
#[derive(Debug, Clone, Copy, PartialEq, Eq, Structural, PartialOrd, Ord)]
pub struct Edge {
    to_node: usize,
    val: usize,
}

impl View for Edge {
    type V = (usize, usize);

    /// The node that the edge leads to, and its weight.
    closed spec fn view(&self) -> (usize, usize) {
        (self.to_node, self.val)
    }
}

impl Edge {
    pub fn new(to_node: usize, val: usize) -> (r: Self)
        ensures
            r@ == (to_node, val),
    {
        Edge { to_node, val }
    }

    pub fn to(&self) -> (r: usize)
        ensures
            r == self@.0,
    {
        self.to_node
    }

    pub fn cost(&self) -> (r: usize)
        ensures
            r == self@.1,
    {
        self.val
    }
}

/// Whether each edge that is read goes one way, or both ways.
#[allow(clippy::upper_case_acronyms)]
#[derive(Debug, Clone, Copy, PartialEq, Eq, Structural)]
pub enum GraphType {
    DIRECTED,
    UNDIRECTED,
}

/// Why an edge list could not be read as a graph.
#[derive(Debug, Clone, Copy, PartialEq, Eq)]
pub enum GraphErrorKind {
    /// There are not as many weights as nodes, or an edge finds no weight left.
    WeightCount,
    /// The weights are not a list of numbers.
    Weights(ArrParseErrorKind),
    /// The text of an edge is not a list of numbers.
    EdgeList(ArrParseErrorKind),
    /// An edge does not name exactly two nodes.
    EdgeArity,
    /// An edge names a node that the graph does not have.
    NodeOutOfRange,
    /// This character stands outside every edge, where only `,`, spaces and brackets may.
    UnknownChar(char),
}

/// The sentence that describes an error of kind `kind`.
pub open spec fn graph_error_text(kind: GraphErrorKind) -> &'static str {
    match kind {
        GraphErrorKind::WeightCount => "All weights must be provided for edges, only few or more provided than edges!!",
        GraphErrorKind::Weights(_) => "The edge weights are not a list of numbers",
        GraphErrorKind::EdgeList(_) => "An edge is not a list of numbers",
        GraphErrorKind::EdgeArity => "Inner edge array should have only two element",
        GraphErrorKind::NodeOutOfRange => "No. of nodes & edges for nodes doesn't match",
        GraphErrorKind::UnknownChar(_) => "Unknown character in edges string",
    }
}

/// The error returned when a graph cannot be built from its text.
#[derive(Debug, Clone, Copy)]
pub struct InvalidGraphError {
    pub kind: GraphErrorKind,
}

impl InvalidGraphError {
    /// A sentence that describes the error.
    pub fn message(&self) -> (r: String)
        ensures
            r@ == graph_error_text(self.kind)@,
    {
        match self.kind {
            GraphErrorKind::WeightCount => String::from_str(
                "All weights must be provided for edges, only few or more provided than edges!!",
            ),
            GraphErrorKind::Weights(_) => String::from_str("The edge weights are not a list of numbers"),
            GraphErrorKind::EdgeList(_) => String::from_str("An edge is not a list of numbers"),
            GraphErrorKind::EdgeArity => String::from_str(
                "Inner edge array should have only two element",
            ),
            GraphErrorKind::NodeOutOfRange => String::from_str(
                "No. of nodes & edges for nodes doesn't match",
            ),
            GraphErrorKind::UnknownChar(_) => String::from_str("Unknown character in edges string"),
        }
    }
}

/// A graph as adjacency lists: for each node, its outgoing edges in the order read.
#[derive(Debug)]
pub struct Graph {
    adj: Vec<Vec<Edge>>,
    g_type: GraphType,
}

spec fn rows_view(rows: Seq<Vec<Edge>>) -> Seq<Seq<(usize, usize)>> {
    rows.map_values(|row: Vec<Edge>| row@.map_values(|e: Edge| e@))
}

impl View for Graph {
    type V = Seq<Seq<(usize, usize)>>;

    /// For each node, its edges as (node led to, weight), in order.
    closed spec fn view(&self) -> Seq<Seq<(usize, usize)>> {
        rows_view(self.adj@)
    }
}

/// Every edge leads to a node of the graph.
pub open spec fn edges_in_range(adj: Seq<Seq<(usize, usize)>>) -> bool {
    forall|u: int, k: int|
        0 <= u < adj.len() && 0 <= k < adj[u].len() ==> (#[trigger] adj[u][k]).0 < adj.len()
}

/// The lists after adding an edge from `a` to `b` of weight `w`; for an
/// undirected graph, also the edge from `b` back to `a`.
pub open spec fn add_edge(
    adj: Seq<Seq<(usize, usize)>>,
    a: usize,
    b: usize,
    w: usize,
    g_type: GraphType,
) -> Seq<Seq<(usize, usize)>> {
    let once = adj.update(a as int, adj[a as int].push((b, w)));
    if g_type == GraphType::UNDIRECTED {
        once.update(b as int, once[b as int].push((a, w)))
    } else {
        once
    }
}

/// How reading the edge list `s` goes on from position `i`: `outer` tells
/// whether the outer `[` has been read, `inner` where the edge being read
/// opened, `used` how many weights the edges so far have taken, and `adj` is
/// what has been built. Outside the outer list only `,` and spaces may stand
/// before it; a `]` outside every edge ends the reading. Inside an edge any
/// character may stand, and a `[` starts the edge afresh.
pub open spec fn scan_edges(
    s: Seq<char>,
    i: int,
    outer: bool,
    inner: Option<int>,
    used: int,
    adj: Seq<Seq<(usize, usize)>>,
    weights: Seq<usize>,
    g_type: GraphType,
) -> Result<Seq<Seq<(usize, usize)>>, GraphErrorKind>
    decreases s.len() - i,
{
    if i < 0 || i >= s.len() {
        Ok(adj)
    } else {
        let c = s[i];
        if c == '[' {
            let start = if outer {
                Some(i)
            } else {
                inner
            };
            scan_edges(s, i + 1, true, start, used, adj, weights, g_type)
        } else if c == ']' {
            match inner {
                None => Ok(adj),
                Some(p) => match array_result(s.subrange(p, i + 1)) {
                    Err(k) => Err(GraphErrorKind::EdgeList(k)),
                    Ok(e) => {
                        if e.len() != 2 {
                            Err(GraphErrorKind::EdgeArity)
                        } else if e[0] >= adj.len() || e[1] >= adj.len() {
                            Err(GraphErrorKind::NodeOutOfRange)
                        } else if used < 0 || used >= weights.len() {
                            Err(GraphErrorKind::WeightCount)
                        } else {
                            let next = add_edge(adj, e[0], e[1], weights[used], g_type);
                            scan_edges(s, i + 1, outer, None, used + 1, next, weights, g_type)
                        }
                    },
                },
            }
        } else if c == ',' || c == ' ' || inner is Some {
            scan_edges(s, i + 1, outer, inner, used, adj, weights, g_type)
        } else {
            Err(GraphErrorKind::UnknownChar(c))
        }
    }
}

/// The edges of the first `m` nodes as (node, node led to): node by node, each
/// node's edges in order.
pub open spec fn pairs_upto(adj: Seq<Seq<(usize, usize)>>, m: int) -> Seq<(usize, usize)>
    decreases m,
{
    if m <= 0 {
        Seq::empty()
    } else {
        pairs_upto(adj, m - 1) + adj[m - 1].map_values(|e: (usize, usize)| ((m - 1) as usize, e.0))
    }
}

/// Every edge as (node, node led to): node by node, each node's edges in order.
pub open spec fn edge_pairs(adj: Seq<Seq<(usize, usize)>>) -> Seq<(usize, usize)> {
    pairs_upto(adj, adj.len() as int)
}

/// Both nodes of every pair of `edge_pairs(adj)` belong to the graph.
pub proof fn lemma_edge_pairs_in_range(adj: Seq<Seq<(usize, usize)>>, m: int)
    requires
        edges_in_range(adj),
        0 <= m <= adj.len(),
    ensures
        forall|j: int|
            0 <= j < pairs_upto(adj, m).len() ==> (#[trigger] pairs_upto(adj, m)[j]).0 < adj.len()
                && pairs_upto(adj, m)[j].1 < adj.len(),
    decreases m,
{
    if m > 0 {
        lemma_edge_pairs_in_range(adj, m - 1);
        let prev = pairs_upto(adj, m - 1);
        let all = pairs_upto(adj, m);
        assert forall|j: int| 0 <= j < all.len() implies (#[trigger] all[j]).0 < adj.len() && all[j].1
            < adj.len() by {
            if j >= prev.len() {
                assert(adj[m - 1][j - prev.len()].0 < adj.len());
            } else {
                assert(all[j] == prev[j]);
            }
        }
    }
}

/// No edges yet on any of `nodes` nodes.
pub open spec fn no_edges(nodes: nat) -> Seq<Seq<(usize, usize)>> {
    Seq::new(nodes, |u: int| Seq::<(usize, usize)>::empty())
}

/// What reading a graph of `nodes` nodes gives, from its edge list `s` and the
/// weights that its edges take in turn. There must be one weight per node.
pub open spec fn graph_result(nodes: nat, s: Seq<char>, weights: Seq<usize>, g_type: GraphType) -> Result<
    Seq<Seq<(usize, usize)>>,
    GraphErrorKind,
> {
    if weights.len() != nodes {
        Err(GraphErrorKind::WeightCount)
    } else {
        scan_edges(s, 0, false, None, 0, no_edges(nodes), weights, g_type)
    }
}

/// The weight one for each of `nodes` edges.
pub open spec fn unit_weights(nodes: nat) -> Seq<usize> {
    Seq::new(nodes, |k: int| 1usize)
}

/// What reading a weighted graph gives: the weights `w` are a list of numbers.
pub open spec fn weighted_graph_result(nodes: nat, s: Seq<char>, w: Seq<char>, g_type: GraphType) -> Result<
    Seq<Seq<(usize, usize)>>,
    GraphErrorKind,
> {
    match array_result(w) {
        Err(k) => Err(GraphErrorKind::Weights(k)),
        Ok(ws) => graph_result(nodes, s, ws, g_type),
    }
}

/// `r` is what `expected` describes: the graph with those lists, of type
/// `g_type`, or the error of that kind.
pub open spec fn built_as(
    r: Result<Graph, InvalidGraphError>,
    expected: Result<Seq<Seq<(usize, usize)>>, GraphErrorKind>,
    g_type: GraphType,
) -> bool {
    match r {
        Ok(g) => expected == Ok::<Seq<Seq<(usize, usize)>>, GraphErrorKind>(g@) && g.graph_type()
            == g_type,
        Err(e) => expected == Err::<Seq<Seq<(usize, usize)>>, GraphErrorKind>(e.kind),
    }
}

/// A graph whose edges all weigh one.
pub trait UnitWeightedGraph {
    fn new(nodes: usize, edges: &str, g_type: GraphType) -> (r: Result<Graph, InvalidGraphError>)
        ensures
            built_as(r, graph_result(nodes as nat, edges@, unit_weights(nodes as nat), g_type), g_type),
    ;
}

/// A graph whose edges take their weights from a list, in order.
pub trait WeightedGraph {
    fn new(nodes: usize, edges: &str, edge_vals: &str, g_type: GraphType) -> (r: Result<
        Graph,
        InvalidGraphError,
    >)
        ensures
            built_as(r, weighted_graph_result(nodes as nat, edges@, edge_vals@, g_type), g_type),
    ;
}

impl Graph {
    #[verifier::type_invariant]
    spec fn inv(&self) -> bool {
        edges_in_range(self@)
    }

    /// Whether the graph was read as directed or undirected.
    pub closed spec fn graph_type(&self) -> GraphType {
        self.g_type
    }

    /// The nodes that the edges of `node` lead to, in order; none for a node
    /// that the graph does not have.
    pub fn neighbours(&self, node: usize) -> (r: Vec<usize>)
        ensures
            node < self@.len() ==> r@ == self@[node as int].map_values(|e: (usize, usize)| e.0),
            node >= self@.len() ==> r@.len() == 0,
    {
        let mut r: Vec<usize> = Vec::new();
        if node >= self.adj.len() {
            return r;
        }
        let row = &self.adj[node];
        let mut k: usize = 0;
        while k < row.len()
            invariant
                row@ == self.adj@[node as int]@,
                node < self.adj@.len(),
                k <= row@.len(),
                r@ == self@[node as int].take(k as int).map_values(|e: (usize, usize)| e.0),
            decreases row@.len() - k,
        {
            r.push(row[k].to_node);
            k += 1;
            assert(r@ =~= self@[node as int].take(k as int).map_values(|e: (usize, usize)| e.0));
        }
        assert(self@[node as int].take(k as int) =~= self@[node as int]);
        r
    }

    /// The edges of `node`, in order.
    pub fn edges_for(&self, node: usize) -> (r: Vec<&Edge>)
        requires
            node < self@.len(),
        ensures
            r@.len() == self@[node as int].len(),
            forall|k: int| 0 <= k < r@.len() ==> (#[trigger] r@[k])@ == self@[node as int][k],
    {
        let row = &self.adj[node];
        let mut r: Vec<&Edge> = Vec::new();
        let mut k: usize = 0;
        while k < row.len()
            invariant
                row@ == self.adj@[node as int]@,
                node < self.adj@.len(),
                k <= row@.len(),
                r@.len() == k,
                forall|j: int| 0 <= j < k ==> (#[trigger] r@[j])@ == self@[node as int][j],
            decreases row@.len() - k,
        {
            r.push(&row[k]);
            k += 1;
        }
        r
    }

    /// Every edge as (node, node led to): node by node, each node's edges in order.
    pub fn all_edges(&self) -> (r: Vec<(usize, usize)>)
        ensures
            r@ == edge_pairs(self@),
    {
        let mut r: Vec<(usize, usize)> = Vec::new();
        let mut u: usize = 0;
        while u < self.adj.len()
            invariant
                u <= self@.len(),
                self@.len() == self.adj@.len(),
                r@ == pairs_upto(self@, u as int),
            decreases self@.len() - u,
        {
            let row = &self.adj[u];
            let ghost base = r@;
            let mut k: usize = 0;
            while k < row.len()
                invariant
                    u < self@.len(),
                    row@.map_values(|e: Edge| e@) == self@[u as int],
                    k <= row@.len(),
                    r@ == base + self@[u as int].take(k as int).map_values(
                        |e: (usize, usize)| (u, e.0),
                    ),
                decreases row@.len() - k,
            {
                r.push((u, row[k].to_node));
                k += 1;
                assert(r@ =~= base + self@[u as int].take(k as int).map_values(
                    |e: (usize, usize)| (u, e.0),
                ));
            }
            assert(self@[u as int].take(k as int) =~= self@[u as int]);
            u += 1;
            assert(r@ =~= pairs_upto(self@, u as int));
        }
        r
    }

    /// The number of nodes. Every edge leads to one of them.
    pub fn nodes(&self) -> (r: usize)
        ensures
            r == self@.len(),
            edges_in_range(self@),
    {
        proof {
            use_type_invariant(self);
        }
        self.adj.len()
    }
}

spec fn opt_pos(o: Option<usize>) -> Option<int> {
    match o {
        Some(p) => Some(p as int),
        None => None,
    }
}

/// The characters of `s` from `lo` up to `hi`.
fn copy_range(s: &Vec<char>, lo: usize, hi: usize) -> (r: Vec<char>)
    requires
        lo <= hi <= s@.len(),
    ensures
        r@ == s@.subrange(lo as int, hi as int),
{
    let mut r: Vec<char> = Vec::new();
    let mut k: usize = lo;
    while k < hi
        invariant
            lo <= k <= hi <= s@.len(),
            r@ == s@.subrange(lo as int, k as int),
        decreases hi - k,
    {
        r.push(s[k]);
        k += 1;
        assert(r@ =~= s@.subrange(lo as int, k as int));
    }
    r
}

proof fn lemma_rows_push(rows: Seq<Vec<Edge>>, next: Seq<Vec<Edge>>, a: int, e: Edge)
    requires
        0 <= a < rows.len(),
        next.len() == rows.len(),
        forall|u: int| 0 <= u < rows.len() && u != a ==> next[u]@ == rows[u]@,
        next[a]@ == rows[a]@.push(e),
    ensures
        rows_view(next) == rows_view(rows).update(a, rows_view(rows)[a].push(e@)),
{
    let lhs = rows_view(next);
    let rhs = rows_view(rows).update(a, rows_view(rows)[a].push(e@));
    assert forall|u: int| 0 <= u < lhs.len() implies lhs[u] == rhs[u] by {
        if u == a {
            assert(lhs[u] =~= rhs[u]);
        }
    }
    assert(lhs =~= rhs);
}

/// Adds the edge `e` to the list of node `a`.
fn push_edge(adj: &mut Vec<Vec<Edge>>, a: usize, e: Edge)
    requires
        a < old(adj)@.len(),
    ensures
        final(adj)@.len() == old(adj)@.len(),
        rows_view(final(adj)@) == rows_view(old(adj)@).update(
            a as int,
            rows_view(old(adj)@)[a as int].push(e@),
        ),
{
    let ghost before = adj@;
    adj[a].push(e);
    proof {
        lemma_rows_push(before, adj@, a as int, e);
    }
}

/// Builds a graph of `nodes` nodes from the edge list `edges`, the edges
/// taking the weights in turn; see [`graph_result`].
fn parse_graph(nodes: usize, edges: &str, weights: &Vec<usize>, g_type: GraphType) -> (r: Result<
    Graph,
    InvalidGraphError,
>)
    ensures
        built_as(r, graph_result(nodes as nat, edges@, weights@, g_type), g_type),
{
    if weights.len() != nodes {
        return Err(InvalidGraphError { kind: GraphErrorKind::WeightCount });
    }
    let mut adj: Vec<Vec<Edge>> = Vec::new();
    let mut u: usize = 0;
    while u < nodes
        invariant
            u <= nodes,
            adj@.len() == u,
            forall|k: int| 0 <= k < u ==> (#[trigger] adj@[k])@.len() == 0,
        decreases nodes - u,
    {
        adj.push(Vec::new());
        u += 1;
    }
    proof {
        let lhs = rows_view(adj@);
        assert forall|k: int| 0 <= k < nodes implies lhs[k] == no_edges(nodes as nat)[k] by {
            assert(adj@[k]@.len() == 0);
            assert(lhs[k] =~= no_edges(nodes as nat)[k]);
        }
        assert(lhs =~= no_edges(nodes as nat));
    }
    let s = chars_of(edges);
    let ghost whole = scan_edges(s@, 0, false, None, 0, no_edges(nodes as nat), weights@, g_type);
    let mut outer = false;
    let mut inner: Option<usize> = None;
    let mut used: usize = 0;
    let mut i: usize = 0;
    while i < s.len()
        invariant
            s@ == edges@,
            i <= s@.len(),
            adj@.len() == nodes,
            weights@.len() == nodes,
            used <= i,
            match inner {
                Some(p) => p < i,
                None => true,
            },
            edges_in_range(rows_view(adj@)),
            whole == scan_edges(s@, 0, false, None, 0, no_edges(nodes as nat), weights@, g_type),
            whole == scan_edges(
                s@,
                i as int,
                outer,
                opt_pos(inner),
                used as int,
                rows_view(adj@),
                weights@,
                g_type,
            ),
        decreases s@.len() - i,
    {
        let c = s[i];
        if c == '[' {
            if outer {
                inner = Some(i);
            }
            outer = true;
        } else if c == ']' {
            match inner {
                None => {
                    return Ok(Graph { adj, g_type });
                },
                Some(p) => {
                    let text = copy_range(&s, p, i + 1);
                    match parse_array_chars(&text) {
                        Err(e) => {
                            return Err(InvalidGraphError { kind: GraphErrorKind::EdgeList(e.kind) });
                        },
                        Ok(edge) => {
                            if edge.len() != 2 {
                                return Err(InvalidGraphError { kind: GraphErrorKind::EdgeArity });
                            }
                            let a = edge[0];
                            let b = edge[1];
                            if a >= nodes || b >= nodes {
                                return Err(InvalidGraphError { kind: GraphErrorKind::NodeOutOfRange });
                            }
                            if used >= weights.len() {
                                return Err(InvalidGraphError { kind: GraphErrorKind::WeightCount });
                            }
                            let w = weights[used];
                            let ghost before = rows_view(adj@);
                            push_edge(&mut adj, a, Edge::new(b, w));
                            if g_type == GraphType::UNDIRECTED {
                                push_edge(&mut adj, b, Edge::new(a, w));
                            }
                            assert(rows_view(adj@) == add_edge(before, a, b, w, g_type));
                            inner = None;
                            used += 1;
                        },
                    }
                },
            }
        } else if c == ',' || c == ' ' {
        } else if inner.is_none() {
            return Err(InvalidGraphError { kind: GraphErrorKind::UnknownChar(c) });
        }
        i += 1;
    }
    Ok(Graph { adj, g_type })
}

impl UnitWeightedGraph for Graph {
    fn new(nodes: usize, edges: &str, g_type: GraphType) -> (r: Result<Graph, InvalidGraphError>) {
        let mut weights: Vec<usize> = Vec::new();
        let mut k: usize = 0;
        while k < nodes
            invariant
                k <= nodes,
                weights@ == unit_weights(k as nat),
            decreases nodes - k,
        {
            weights.push(1);
            k += 1;
            assert(weights@ =~= unit_weights(k as nat));
        }
        parse_graph(nodes, edges, &weights, g_type)
    }
}

impl WeightedGraph for Graph {
    fn new(nodes: usize, edges: &str, edge_vals: &str, g_type: GraphType) -> (r: Result<
        Graph,
        InvalidGraphError,
    >) {
        match parse_array(edge_vals) {
            Err(e) => Err(InvalidGraphError { kind: GraphErrorKind::Weights(e.kind) }),
            Ok(weights) => parse_graph(nodes, edges, &weights, g_type),
        }
    }
}

} // verus!
