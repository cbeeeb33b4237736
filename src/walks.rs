use crate::graph::edges_in_range;
use vstd::prelude::*;

verus! {

/// A step of a walk: a node, and the position of one of its edges in its list.
pub type Step = (int, int);

/// Whether step `st` names an edge of `adj`.
pub open spec fn step_ok(adj: Seq<Seq<(usize, usize)>>, st: Step) -> bool {
    0 <= st.0 < adj.len() && 0 <= st.1 < adj[st.0].len()
}

/// The node that step `st` leads to.
pub open spec fn step_target(adj: Seq<Seq<(usize, usize)>>, st: Step) -> int {
    adj[st.0][st.1].0 as int
}

/// The weight of the edge that step `st` takes.
pub open spec fn step_weight(adj: Seq<Seq<(usize, usize)>>, st: Step) -> nat {
    adj[st.0][st.1].1 as nat
}

/// `p` is a walk from `from` to `to`: each step leaves the node that the one
/// before it reached (the first leaves `from`), and the last reaches `to`. The
/// empty walk goes from each node to itself.
pub open spec fn is_walk(adj: Seq<Seq<(usize, usize)>>, from: int, to: int, p: Seq<Step>) -> bool
    decreases p.len(),
{
    if p.len() == 0 {
        from == to
    } else {
        step_ok(adj, p.last()) && step_target(adj, p.last()) == to && is_walk(
            adj,
            from,
            p.last().0,
            p.drop_last(),
        )
    }
}

/// The sum of the weights of the edges that walk `p` takes.
pub open spec fn walk_cost(adj: Seq<Seq<(usize, usize)>>, p: Seq<Step>) -> nat
    decreases p.len(),
{
    if p.len() == 0 {
        0
    } else {
        walk_cost(adj, p.drop_last()) + step_weight(adj, p.last())
    }
}

/// Some walk leads from `from` to `to`.
pub open spec fn reachable(adj: Seq<Seq<(usize, usize)>>, from: int, to: int) -> bool {
    exists|p: Seq<Step>| is_walk(adj, from, to, p)
}

/// Some walk leads from `from` to `to` at a cost of at most `bound`.
pub open spec fn reachable_within(adj: Seq<Seq<(usize, usize)>>, from: int, to: int, bound: nat) -> bool {
    exists|p: Seq<Step>| is_walk(adj, from, to, p) && walk_cost(adj, p) <= bound
}

/// `d` is the least cost of a walk from `from` to `to`.
pub open spec fn is_shortest(adj: Seq<Seq<(usize, usize)>>, from: int, to: int, d: nat) -> bool {
    &&& exists|p: Seq<Step>| is_walk(adj, from, to, p) && walk_cost(adj, p) == d
    &&& forall|p: Seq<Step>| is_walk(adj, from, to, p) ==> d <= walk_cost(adj, p)
}

/// A walk followed by one more step is a walk.
pub proof fn lemma_walk_extend(adj: Seq<Seq<(usize, usize)>>, from: int, mid: int, p: Seq<Step>, k: int)
    requires
        is_walk(adj, from, mid, p),
        step_ok(adj, (mid, k)),
    ensures
        is_walk(adj, from, step_target(adj, (mid, k)), p.push((mid, k))),
        walk_cost(adj, p.push((mid, k))) == walk_cost(adj, p) + step_weight(adj, (mid, k)),
{
    assert(p.push((mid, k)).drop_last() =~= p);
}

/// A walk that takes at least one step starts at a node of the graph and
/// ends at one.
pub proof fn lemma_walk_ends_in_graph(adj: Seq<Seq<(usize, usize)>>, from: int, to: int, p: Seq<Step>)
    requires
        edges_in_range(adj),
        is_walk(adj, from, to, p),
        p.len() > 0,
    ensures
        0 <= from < adj.len(),
        0 <= to < adj.len(),
    decreases p.len(),
{
    let st = p.last();
    assert(adj[st.0][st.1].0 < adj.len());
    assert(is_walk(adj, from, st.0, p.drop_last()));
    if p.len() > 1 {
        lemma_walk_ends_in_graph(adj, from, st.0, p.drop_last());
    }
}

/// Every walk from `from` stays in a set of nodes that holds `from` and the
/// ends of all the edges of its members.
pub proof fn lemma_closed_set_holds_walks(
    adj: Seq<Seq<(usize, usize)>>,
    seen: Seq<bool>,
    from: int,
    to: int,
    p: Seq<Step>,
)
    requires
        edges_in_range(adj),
        seen.len() == adj.len(),
        0 <= from < adj.len(),
        seen[from],
        forall|u: int, k: int|
            0 <= u < adj.len() && seen[u] && 0 <= k < adj[u].len() ==> seen[(#[trigger] adj[u][k]).0 as int],
        is_walk(adj, from, to, p),
    ensures
        0 <= to < adj.len(),
        seen[to],
    decreases p.len(),
{
    if p.len() > 0 {
        let st = p.last();
        lemma_closed_set_holds_walks(adj, seen, from, st.0, p.drop_last());
        assert(adj[st.0][st.1].0 < adj.len());
        assert(seen[adj[st.0][st.1].0 as int]);
    }
}

} // verus!
