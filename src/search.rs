use crate::graph::{edges_in_range, Graph};
use crate::walks::{
    is_shortest, is_walk, lemma_closed_set_holds_walks, lemma_walk_ends_in_graph,
    lemma_walk_extend, reachable, reachable_within, step_target, step_weight, walk_cost, Step,
};
use vstd::prelude::*;

verus! {

/// The order in which [`find_path`] looks at the nodes.
#[allow(clippy::upper_case_acronyms)]
#[derive(Debug, Clone, Copy, PartialEq, Eq, Structural)]
pub enum SearchType {
    BFS,
    DFS,
}

/// The number of entries of `s` that are `false`.
pub open spec fn count_false(s: Seq<bool>) -> nat
    decreases s.len(),
{
    if s.len() == 0 {
        0
    } else {
        count_false(s.drop_last()) + if s.last() {
            0nat
        } else {
            1nat
        }
    }
}

proof fn lemma_count_false_all(n: nat)
    ensures
        count_false(Seq::new(n, |i: int| false)) == n,
    decreases n,
{
    if n > 0 {
        lemma_count_false_all((n - 1) as nat);
        assert(Seq::new(n, |i: int| false).drop_last() =~= Seq::new((n - 1) as nat, |i: int| false));
    }
}

proof fn lemma_count_false_mark(s: Seq<bool>, i: int)
    requires
        0 <= i < s.len(),
        !s[i],
    ensures
        count_false(s.update(i, true)) + 1 == count_false(s),
    decreases s.len(),
{
    if i == s.len() - 1 {
        assert(s.update(i, true).drop_last() =~= s.drop_last());
    } else {
        lemma_count_false_mark(s.drop_last(), i);
        assert(s.update(i, true).drop_last() =~= s.drop_last().update(i, true));
    }
}

/// `n` entries, all `false`.
fn all_false(n: usize) -> (r: Vec<bool>)
    ensures
        r@ == Seq::new(n as nat, |i: int| false),
{
    let mut r: Vec<bool> = Vec::new();
    let mut k: usize = 0;
    while k < n
        invariant
            k <= n,
            r@ == Seq::new(k as nat, |i: int| false),
        decreases n - k,
    {
        r.push(false);
        k += 1;
        assert(r@ =~= Seq::new(k as nat, |i: int| false));
    }
    r
}

/// There is no walk from `from` to `to` when `from` is not a node of the
/// graph and differs from `to`.
proof fn lemma_no_walk_from_outside(adj: Seq<Seq<(usize, usize)>>, from: int, to: int)
    requires
        edges_in_range(adj),
        !(0 <= from < adj.len()),
        from != to,
    ensures
        !reachable(adj, from, to),
{
    assert forall|p: Seq<Step>| !is_walk(adj, from, to, p) by {
        if is_walk(adj, from, to, p) {
            lemma_walk_ends_in_graph(adj, from, to, p);
        }
    }
}

/// Whether `to` can be reached from `from`, visiting the nodes level by level.
fn find_path_bfs(from: usize, to: usize, graph: &Graph) -> (r: bool)
    ensures
        r == reachable(graph@, from as int, to as int),
{
    if from == to {
        assert(is_walk(graph@, from as int, to as int, Seq::empty()));
        return true;
    }
    let n = graph.nodes();
    let ghost adj = graph@;
    if from >= n {
        proof {
            lemma_no_walk_from_outside(adj, from as int, to as int);
        }
        return false;
    }
    let mut seen = all_false(n);
    proof {
        lemma_count_false_all(n as nat);
        lemma_count_false_mark(seen@, from as int);
        assert(is_walk(adj, from as int, from as int, Seq::empty()));
    }
    seen.set(from, true);
    let mut queue: Vec<usize> = Vec::new();
    queue.push(from);
    assert(queue@[0] == from);
    let mut head: usize = 0;
    while head < queue.len()
        invariant
            adj == graph@,
            n == adj.len(),
            edges_in_range(adj),
            seen@.len() == n,
            from < n,
            from != to,
            seen@[from as int],
            head <= queue@.len(),
            queue@.len() + count_false(seen@) == n,
            forall|j: int| 0 <= j < queue@.len() ==> #[trigger] queue@[j] < n && seen@[queue@[j] as int],
            forall|x: int| 0 <= x < n && #[trigger] seen@[x] ==> reachable(adj, from as int, x),
            forall|x: int|
                0 <= x < n && #[trigger] seen@[x] ==> exists|j: int|
                    0 <= j < queue@.len() && queue@[j] == x,
            forall|j: int, k: int|
                0 <= j < head && 0 <= k < adj[queue@[j] as int].len() ==> seen@[(
                #[trigger] adj[queue@[j] as int][k]).0 as int],
            to < n ==> !seen@[to as int],
        decreases n - head,
    {
        let u = queue[head];
        let nb = graph.neighbours(u);
        let mut k: usize = 0;
        while k < nb.len()
            invariant
                adj == graph@,
                n == adj.len(),
                edges_in_range(adj),
                seen@.len() == n,
                from < n,
                from != to,
                seen@[from as int],
                head < queue@.len(),
                u == queue@[head as int],
                nb@ == adj[u as int].map_values(|e: (usize, usize)| e.0),
                k <= nb@.len(),
                queue@.len() + count_false(seen@) == n,
                forall|j: int| 0 <= j < queue@.len() ==> #[trigger] queue@[j] < n && seen@[queue@[j] as int],
                forall|x: int| 0 <= x < n && #[trigger] seen@[x] ==> reachable(adj, from as int, x),
                forall|x: int|
                    0 <= x < n && #[trigger] seen@[x] ==> exists|j: int|
                        0 <= j < queue@.len() && queue@[j] == x,
                forall|j: int, kk: int|
                    0 <= j < head && 0 <= kk < adj[queue@[j] as int].len() ==> seen@[(
                    #[trigger] adj[queue@[j] as int][kk]).0 as int],
                forall|kk: int| 0 <= kk < k ==> seen@[(#[trigger] adj[u as int][kk]).0 as int],
                to < n ==> !seen@[to as int],
            decreases nb@.len() - k,
        {
            let v = nb[k];
            assert(v == adj[u as int][k as int].0);
            if !seen[v] {
                proof {
                    let p = choose|p: Seq<Step>| is_walk(adj, from as int, u as int, p);
                    lemma_walk_extend(adj, from as int, u as int, p, k as int);
                    assert(step_target(adj, (u as int, k as int)) == v);
                }
                if v == to {
                    return true;
                }
                proof {
                    lemma_count_false_mark(seen@, v as int);
                }
                let ghost old_queue = queue@;
                seen.set(v, true);
                queue.push(v);
                assert forall|x: int| 0 <= x < n && #[trigger] seen@[x] implies exists|j: int|
                    0 <= j < queue@.len() && queue@[j] == x by {
                    if x == v {
                        assert(queue@[old_queue.len() as int] == x);
                    } else {
                        let j = choose|j: int| 0 <= j < old_queue.len() && old_queue[j] == x;
                        assert(queue@[j] == x);
                    }
                }
            }
            k += 1;
        }
        head += 1;
    }
    proof {
        assert forall|u: int, k: int|
            0 <= u < adj.len() && seen@[u] && 0 <= k < adj[u].len() implies seen@[(
            #[trigger] adj[u][k]).0 as int] by {
            let j = choose|j: int| 0 <= j < queue@.len() && queue@[j] == u;
            assert(adj[queue@[j] as int][k] == adj[u][k]);
        }
        assert forall|p: Seq<Step>| !is_walk(adj, from as int, to as int, p) by {
            if is_walk(adj, from as int, to as int, p) {
                lemma_closed_set_holds_walks(adj, seen@, from as int, to as int, p);
            }
        }
    }
    false
}

/// Whether `to` can be reached from `from`, following each path as deep as it
/// goes before turning back.
fn find_path_dfs(from: usize, to: usize, g: &Graph) -> (r: bool)
    ensures
        r == reachable(g@, from as int, to as int),
{
    if from == to {
        assert(is_walk(g@, from as int, to as int, Seq::empty()));
        return true;
    }
    let n = g.nodes();
    let ghost adj = g@;
    if from >= n {
        proof {
            lemma_no_walk_from_outside(adj, from as int, to as int);
        }
        return false;
    }
    let mut seen = all_false(n);
    proof {
        assert(is_walk(adj, from as int, from as int, Seq::empty()));
    }
    seen.set(from, true);
    let mut stack: Vec<usize> = Vec::new();
    stack.push(from);
    assert(stack@[0] == from);
    while stack.len() > 0
        invariant
            adj == g@,
            n == adj.len(),
            edges_in_range(adj),
            seen@.len() == n,
            from < n,
            from != to,
            seen@[from as int],
            forall|j: int| 0 <= j < stack@.len() ==> #[trigger] stack@[j] < n && seen@[stack@[j] as int],
            forall|x: int| 0 <= x < n && #[trigger] seen@[x] ==> reachable(adj, from as int, x),
            forall|x: int, k: int|
                0 <= x < n && seen@[x] && !stack@.contains(x as usize) && 0 <= k < adj[x].len()
                    ==> seen@[(#[trigger] adj[x][k]).0 as int],
            to < n ==> !seen@[to as int],
        decreases count_false(seen@), stack@.len(),
    {
        let ghost before = stack@;
        let u = stack.pop().unwrap();
        assert(stack@ == before.drop_last() && u == before.last());
        let ghost popped = stack@;
        let ghost unseen = count_false(seen@);
        assert forall|x: int| 0 <= x < n && x != u as int && !popped.contains(x as usize)
            implies !#[trigger] before.contains(x as usize) by {
            if before.contains(x as usize) {
                let j = choose|j: int| 0 <= j < before.len() && before[j] == x as usize;
                assert(j < popped.len());
                assert(popped[j] == x as usize);
            }
        }
        let nb = g.neighbours(u);
        let mut k: usize = 0;
        while k < nb.len()
            invariant
                adj == g@,
                n == adj.len(),
                edges_in_range(adj),
                seen@.len() == n,
                from < n,
                from != to,
                seen@[from as int],
                u < n,
                seen@[u as int],
                nb@ == adj[u as int].map_values(|e: (usize, usize)| e.0),
                k <= nb@.len(),
                forall|j: int| 0 <= j < stack@.len() ==> #[trigger] stack@[j] < n && seen@[stack@[j] as int],
                forall|x: int| 0 <= x < n && #[trigger] seen@[x] ==> reachable(adj, from as int, x),
                forall|x: int, kk: int|
                    0 <= x < n && x != u && seen@[x] && !stack@.contains(x as usize) && 0 <= kk
                        < adj[x].len() ==> seen@[(#[trigger] adj[x][kk]).0 as int],
                forall|kk: int| 0 <= kk < k ==> seen@[(#[trigger] adj[u as int][kk]).0 as int],
                to < n ==> !seen@[to as int],
                count_false(seen@) < unseen || (count_false(seen@) == unseen && stack@ == popped),
            decreases nb@.len() - k,
        {
            let v = nb[k];
            assert(v == adj[u as int][k as int].0);
            if !seen[v] {
                proof {
                    let p = choose|p: Seq<Step>| is_walk(adj, from as int, u as int, p);
                    lemma_walk_extend(adj, from as int, u as int, p, k as int);
                    assert(step_target(adj, (u as int, k as int)) == v);
                }
                if v == to {
                    return true;
                }
                proof {
                    lemma_count_false_mark(seen@, v as int);
                }
                let ghost old_stack = stack@;
                seen.set(v, true);
                stack.push(v);
                assert(stack@[old_stack.len() as int] == v);
                assert(stack@.contains(v));
                assert forall|x: int| 0 <= x < n && x != u && !stack@.contains(x as usize)
                    implies !#[trigger] old_stack.contains(x as usize) by {
                    if old_stack.contains(x as usize) {
                        let j = choose|j: int| 0 <= j < old_stack.len() && old_stack[j] == x as usize;
                        assert(stack@[j] == x as usize);
                    }
                }
            }
            k += 1;
        }
    }
    proof {
        assert forall|u: int, k: int|
            0 <= u < adj.len() && seen@[u] && 0 <= k < adj[u].len() implies seen@[(
            #[trigger] adj[u][k]).0 as int] by {
            assert(!stack@.contains(u as usize));
        }
        assert forall|p: Seq<Step>| !is_walk(adj, from as int, to as int, p) by {
            if is_walk(adj, from as int, to as int, p) {
                lemma_closed_set_holds_walks(adj, seen@, from as int, to as int, p);
            }
        }
    }
    false
}

/// Whether some walk leads from `from` to `to`, searching in the order that
/// `s_type` names. A node always reaches itself, whether or not the graph has
/// it.
pub fn find_path(from: usize, to: usize, g: &Graph, s_type: SearchType) -> (r: bool)
    ensures
        r == reachable(g@, from as int, to as int),
{
    match s_type {
        SearchType::BFS => find_path_bfs(from, to, g),
        SearchType::DFS => find_path_dfs(from, to, g),
    }
}

/// Visits the first `k` edges of `row`: each node that they lead to and that
/// is not marked in `seen` yet is marked and written to `out`.
pub open spec fn visit_neighbours(row: Seq<(usize, usize)>, k: int, seen: Seq<bool>, out: Seq<usize>) -> (
    Seq<bool>,
    Seq<usize>,
)
    decreases k,
{
    if k <= 0 {
        (seen, out)
    } else {
        let (s_prev, o_prev) = visit_neighbours(row, k - 1, seen, out);
        let t = row[k - 1].0;
        if s_prev[t as int] {
            (s_prev, o_prev)
        } else {
            (s_prev.update(t as int, true), o_prev.push(t))
        }
    }
}

/// The marks and the output after the first `m` nodes, taken in increasing
/// order: a node not marked yet is marked, its unmarked neighbours are marked
/// and written out, and then the node itself is written out.
pub open spec fn finish_order(adj: Seq<Seq<(usize, usize)>>, m: int) -> (Seq<bool>, Seq<usize>)
    decreases m,
{
    if m <= 0 {
        (Seq::new(adj.len(), |i: int| false), Seq::empty())
    } else {
        let (s, o) = finish_order(adj, m - 1);
        let v = m - 1;
        if s[v] {
            (s, o)
        } else {
            let (s_next, o_next) = visit_neighbours(adj[v], adj[v].len() as int, s.update(v, true), o);
            (s_next, o_next.push(v as usize))
        }
    }
}

/// The order that [`topological_sort`] gives: the output of all nodes, last
/// written first. Only the neighbours of a node are written before it, not
/// what lies further on, so on a graph with longer paths this order need not
/// put every edge forward.
pub open spec fn topological_order(adj: Seq<Seq<(usize, usize)>>) -> Seq<usize> {
    finish_order(adj, adj.len() as int).1.reverse()
}

/// Orders the nodes as [`topological_order`] says; each node comes exactly once.
pub fn topological_sort(g: &Graph) -> (r: Vec<usize>)
    ensures
        r@ == topological_order(g@),
        r@.no_duplicates(),
        forall|v: int| 0 <= v < g@.len() ==> #[trigger] r@.contains(v as usize),
        forall|j: int| 0 <= j < r@.len() ==> #[trigger] r@[j] < g@.len(),
{
    let n = g.nodes();
    let ghost adj = g@;
    let mut visited = all_false(n);
    let mut stack: Vec<usize> = Vec::new();
    let mut v: usize = 0;
    while v < n
        invariant
            adj == g@,
            n == adj.len(),
            edges_in_range(adj),
            v <= n,
            (visited@, stack@) == finish_order(adj, v as int),
            visited@.len() == n,
            stack@.no_duplicates(),
            forall|j: int| 0 <= j < stack@.len() ==> #[trigger] stack@[j] < n,
            forall|x: int| 0 <= x < n ==> (#[trigger] visited@[x] <==> stack@.contains(x as usize)),
            forall|x: int| 0 <= x < v ==> #[trigger] visited@[x],
        decreases n - v,
    {
        if !visited[v] {
            let ghost seen0 = visited@.update(v as int, true);
            let ghost out0 = stack@;
            visited.set(v, true);
            let nb = g.neighbours(v);
            let mut k: usize = 0;
            while k < nb.len()
                invariant
                    adj == g@,
                    n == adj.len(),
                    edges_in_range(adj),
                    v < n,
                    nb@ == adj[v as int].map_values(|e: (usize, usize)| e.0),
                    k <= nb@.len(),
                    (visited@, stack@) == visit_neighbours(adj[v as int], k as int, seen0, out0),
                    visited@.len() == n,
                    visited@[v as int],
                    !stack@.contains(v),
                    stack@.no_duplicates(),
                    forall|j: int| 0 <= j < stack@.len() ==> #[trigger] stack@[j] < n,
                    forall|x: int|
                        0 <= x < n && x != v ==> (#[trigger] visited@[x] <==> stack@.contains(
                            x as usize,
                        )),
                    forall|x: int| 0 <= x < v ==> #[trigger] visited@[x],
                decreases nb@.len() - k,
            {
                let e = nb[k];
                assert(e == adj[v as int][k as int].0);
                assert(e < n);
                if !visited[e] {
                    let ghost old_stack = stack@;
                    visited.set(e, true);
                    stack.push(e);
                    assert(stack@[old_stack.len() as int] == e);
                    assert forall|x: int| 0 <= x < n && x != v implies (#[trigger] visited@[x]
                        <==> stack@.contains(x as usize)) by {
                        if x != e && stack@.contains(x as usize) {
                            let j = choose|j: int| 0 <= j < stack@.len() && stack@[j] == x as usize;
                            assert(old_stack[j] == x as usize);
                        }
                        if x != e && old_stack.contains(x as usize) {
                            let j = choose|j: int| 0 <= j < old_stack.len() && old_stack[j] == x as usize;
                            assert(stack@[j] == x as usize);
                        }
                    }
                    assert(!stack@.contains(v)) by {
                        if stack@.contains(v) {
                            let j = choose|j: int| 0 <= j < stack@.len() && stack@[j] == v;
                            assert(j != old_stack.len());
                            assert(old_stack[j] == v);
                        }
                    }
                }
                k += 1;
            }
            assert(nb@.len() == adj[v as int].len());
            let ghost old_stack = stack@;
            stack.push(v);
            assert(stack@[old_stack.len() as int] == v);
            assert forall|x: int| 0 <= x < n implies (#[trigger] visited@[x] <==> stack@.contains(
                x as usize,
            )) by {
                if x != v && stack@.contains(x as usize) {
                    let j = choose|j: int| 0 <= j < stack@.len() && stack@[j] == x as usize;
                    assert(old_stack[j] == x as usize);
                }
                if x != v && old_stack.contains(x as usize) {
                    let j = choose|j: int| 0 <= j < old_stack.len() && old_stack[j] == x as usize;
                    assert(stack@[j] == x as usize);
                }
            }
        }
        v += 1;
    }
    let ghost order = stack@;
    let mut r: Vec<usize> = Vec::new();
    let mut j: usize = stack.len();
    while j > 0
        invariant
            order == stack@,
            j <= stack@.len(),
            r@ == order.reverse().take((order.len() - j) as int),
        decreases j,
    {
        j -= 1;
        r.push(stack[j]);
        assert(r@ =~= order.reverse().take((order.len() - j) as int));
    }
    proof {
        assert(order.reverse().take(order.len() as int) =~= order.reverse());
        assert forall|a: int, b: int| 0 <= a < r@.len() && 0 <= b < r@.len() && a != b implies r@[a]
            != r@[b] by {
            assert(r@[a] == order[order.len() - 1 - a]);
            assert(r@[b] == order[order.len() - 1 - b]);
        }
        assert forall|x: int| 0 <= x < n implies #[trigger] r@.contains(x as usize) by {
            assert(visited@[x]);
            let i = choose|i: int| 0 <= i < order.len() && order[i] == x as usize;
            assert(r@[order.len() - 1 - i] == x as usize);
        }
        assert forall|i: int| 0 <= i < r@.len() implies #[trigger] r@[i] < n by {
            assert(r@[i] == order[order.len() - 1 - i]);
        }
    }
    r
}

/// Each settled node's distance is at most the cost of every walk to it.
spec fn settled_exact(adj: Seq<Seq<(usize, usize)>>, from: int, dist: Seq<usize>, known: Seq<bool>, done: Seq<bool>) -> bool {
    forall|v: int|
        0 <= v < adj.len() && #[trigger] done[v] ==> known[v] && forall|p: Seq<Step>|
            is_walk(adj, from, v, p) ==> dist[v] <= walk_cost(adj, p)
}

/// Each known distance is the cost of some walk.
spec fn known_witnessed(adj: Seq<Seq<(usize, usize)>>, from: int, dist: Seq<usize>, known: Seq<bool>) -> bool {
    forall|v: int|
        0 <= v < adj.len() && #[trigger] known[v] ==> exists|p: Seq<Step>|
            is_walk(adj, from, v, p) && walk_cost(adj, p) == dist[v]
}

/// The edges of settled nodes have been relaxed, where the sum fits.
spec fn relaxed_from_settled(adj: Seq<Seq<(usize, usize)>>, dist: Seq<usize>, known: Seq<bool>, done: Seq<bool>, skip: int, upto: int) -> bool {
    forall|u: int, k: int|
        0 <= u < adj.len() && done[u] && 0 <= k < adj[u].len() && (u != skip || k < upto)
            && !done[(#[trigger] adj[u][k]).0 as int] && dist[u] + adj[u][k].1 <= usize::MAX
            ==> known[adj[u][k].0 as int] && dist[adj[u][k].0 as int] <= dist[u] + adj[u][k].1
}

/// The first node of a walk that is not settled yet is known, at a distance no
/// larger than the cost of the walk up to it, unless that cost overflows.
proof fn lemma_frontier(
    adj: Seq<Seq<(usize, usize)>>,
    from: int,
    dist: Seq<usize>,
    known: Seq<bool>,
    done: Seq<bool>,
    v: int,
    p: Seq<Step>,
)
    requires
        edges_in_range(adj),
        dist.len() == adj.len(),
        known.len() == adj.len(),
        done.len() == adj.len(),
        0 <= from < adj.len(),
        !done[from] ==> known[from] && dist[from] == 0,
        settled_exact(adj, from, dist, known, done),
        relaxed_from_settled(adj, dist, known, done, -1, 0),
        0 <= v < adj.len(),
        !done[v],
        is_walk(adj, from, v, p),
    ensures
        walk_cost(adj, p) > usize::MAX || exists|x: int|
            0 <= x < adj.len() && !done[x] && known[x] && dist[x] <= walk_cost(adj, p),
    decreases p.len(),
{
    if p.len() == 0 {
        assert(v == from);
    } else {
        let st = p.last();
        let u = st.0;
        let q = p.drop_last();
        assert(is_walk(adj, from, u, q));
        if done[u] {
            assert(dist[u] <= walk_cost(adj, q));
            if walk_cost(adj, p) <= usize::MAX {
                assert(adj[u][st.1].0 == v);
                assert(known[v] && dist[v] <= dist[u] + adj[u][st.1].1);
            }
        } else {
            lemma_frontier(adj, from, dist, known, done, u, q);
        }
    }
}

/// The least cost of a walk from `from_node` to `to_node` (Dijkstra's
/// algorithm): the nearest node not settled yet is settled next, and the
/// edges that leave it are relaxed. When no walk costs at most `usize::MAX`,
/// the result is 0.
pub fn find_distance(g: &Graph, from_node: usize, to_node: usize) -> (r: usize)
    requires
        from_node < g@.len(),
    ensures
        reachable_within(g@, from_node as int, to_node as int, usize::MAX as nat) ==> is_shortest(
            g@,
            from_node as int,
            to_node as int,
            r as nat,
        ),
        !reachable_within(g@, from_node as int, to_node as int, usize::MAX as nat) ==> r == 0,
{
    let n = g.nodes();
    let ghost adj = g@;
    let ghost from = from_node as int;
    let mut dist: Vec<usize> = Vec::new();
    let mut i: usize = 0;
    while i < n
        invariant
            i <= n,
            dist@.len() == i,
            forall|j: int| 0 <= j < i ==> dist@[j] == 0,
        decreases n - i,
    {
        dist.push(0);
        i += 1;
    }
    let mut known = all_false(n);
    let mut done = all_false(n);
    proof {
        lemma_count_false_all(n as nat);
        assert(is_walk(adj, from, from, Seq::empty()));
        assert(walk_cost(adj, Seq::<Step>::empty()) == 0);
    }
    known.set(from_node, true);
    loop
        invariant
            adj == g@,
            n == adj.len(),
            edges_in_range(adj),
            from_node < n,
            from == from_node as int,
            dist@.len() == n,
            known@.len() == n,
            done@.len() == n,
            !done@[from] ==> known@[from] && dist@[from] == 0,
            settled_exact(adj, from, dist@, known@, done@),
            known_witnessed(adj, from, dist@, known@),
            relaxed_from_settled(adj, dist@, known@, done@, -1, 0),
            to_node < n ==> !done@[to_node as int],
        decreases count_false(done@),
    {
        let mut best: usize = n;
        let mut u: usize = 0;
        while u < n
            invariant
                n == adj.len(),
                u <= n,
                dist@.len() == n,
                known@.len() == n,
                done@.len() == n,
                best == n || (best < n && known@[best as int] && !done@[best as int]),
                best == n ==> forall|x: int| 0 <= x < u ==> !(known@[x] && !done@[x]),
                best < n ==> forall|x: int|
                    0 <= x < u && known@[x] && !done@[x] ==> dist@[best as int] <= dist@[x],
            decreases n - u,
        {
            if known[u] && !done[u] && (best == n || dist[u] < dist[best]) {
                best = u;
            }
            u += 1;
        }
        if best == n {
            proof {
                assert forall|p: Seq<Step>|
                    is_walk(adj, from, to_node as int, p) implies walk_cost(adj, p) > usize::MAX by {
                    if p.len() == 0 {
                        assert(to_node as int == from);
                    } else {
                        lemma_walk_ends_in_graph(adj, from, to_node as int, p);
                    }
                    lemma_frontier(adj, from, dist@, known@, done@, to_node as int, p);
                }
            }
            return 0;
        }
        let m = best;
        proof {
            assert forall|p: Seq<Step>| is_walk(adj, from, m as int, p) implies dist@[m as int]
                <= walk_cost(adj, p) by {
                lemma_frontier(adj, from, dist@, known@, done@, m as int, p);
            }
        }
        if m == to_node {
            proof {
                let p = choose|p: Seq<Step>|
                    is_walk(adj, from, m as int, p) && walk_cost(adj, p) == dist@[m as int];
                assert(is_walk(adj, from, m as int, p));
            }
            return dist[m];
        }
        proof {
            lemma_count_false_mark(done@, m as int);
        }
        done.set(m, true);
        let es = g.edges_for(m);
        let dm = dist[m];
        let mut k: usize = 0;
        while k < es.len()
            invariant
                adj == g@,
                n == adj.len(),
                edges_in_range(adj),
                from_node < n,
                from == from_node as int,
                m < n,
                m != to_node,
                done@[m as int],
                dm == dist@[m as int],
                es@.len() == adj[m as int].len(),
                forall|j: int| 0 <= j < es@.len() ==> (#[trigger] es@[j])@ == adj[m as int][j],
                k <= es@.len(),
                dist@.len() == n,
                known@.len() == n,
                done@.len() == n,
                !done@[from] ==> known@[from] && dist@[from] == 0,
                settled_exact(adj, from, dist@, known@, done@),
                known_witnessed(adj, from, dist@, known@),
                relaxed_from_settled(adj, dist@, known@, done@, m as int, k as int),
                to_node < n ==> !done@[to_node as int],
            decreases es@.len() - k,
        {
            let e = es[k];
            let v = e.to();
            let w = e.cost();
            assert(v == adj[m as int][k as int].0 && w == adj[m as int][k as int].1);
            if !done[v] && dm <= usize::MAX - w {
                let c = dm + w;
                if !known[v] || c < dist[v] {
                    proof {
                        let p = choose|p: Seq<Step>|
                            is_walk(adj, from, m as int, p) && walk_cost(adj, p) == dist@[m as int];
                        lemma_walk_extend(adj, from, m as int, p, k as int);
                        assert(step_target(adj, (m as int, k as int)) == v);
                        assert(step_weight(adj, (m as int, k as int)) == w);
                    }
                    dist.set(v, c);
                    known.set(v, true);
                }
            }
            k += 1;
        }
    }
}

} // verus!
