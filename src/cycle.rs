use crate::graph::{edge_pairs, lemma_edge_pairs_in_range, Graph};
use vstd::prelude::*;

verus! {

/// Pair `e` joins `x` and `y`, either way round.
pub open spec fn links(e: (usize, usize), x: int, y: int) -> bool {
    (e.0 == x && e.1 == y) || (e.0 == y && e.1 == x)
}

/// `path` is a sequence of nodes in which each is joined to the next by the
/// pair of `es` at the matching position of `ks`.
pub open spec fn is_chain(es: Seq<(usize, usize)>, path: Seq<int>, ks: Seq<int>) -> bool {
    &&& path.len() >= 1
    &&& ks.len() == path.len() - 1
    &&& forall|i: int|
        0 <= i < ks.len() ==> 0 <= #[trigger] ks[i] < es.len() && links(es[ks[i]], path[i], path[i + 1])
}

/// Some chain of pairs of `es` joins `x` to `y`.
pub open spec fn connected(es: Seq<(usize, usize)>, x: int, y: int) -> bool {
    exists|path: Seq<int>, ks: Seq<int>| is_chain(es, path, ks) && path[0] == x && path.last() == y
}

/// Some pair of `es` is already joined by a chain of the pairs before it.
pub open spec fn closes_cycle(es: Seq<(usize, usize)>) -> bool {
    exists|k: int| 0 <= k < es.len() && connected(es.take(k), es[k].0 as int, es[k].1 as int)
}

/// Whether `e` joins the same two nodes as some pair of `es`, either way round.
pub open spec fn joins_same(es: Seq<(usize, usize)>, e: (usize, usize)) -> bool {
    exists|i: int| 0 <= i < es.len() && links(es[i], e.0 as int, e.1 as int)
}

/// The pairs of `pairs` in order, leaving out each that joins the same two
/// nodes as one kept before it.
pub open spec fn undirected_edges(pairs: Seq<(usize, usize)>) -> Seq<(usize, usize)>
    decreases pairs.len(),
{
    if pairs.len() == 0 {
        Seq::empty()
    } else {
        let kept = undirected_edges(pairs.drop_last());
        if joins_same(kept, pairs.last()) {
            kept
        } else {
            kept.push(pairs.last())
        }
    }
}

/// Both nodes of each pair that [`undirected_edges`] keeps are below `n`, when
/// those of all the pairs are.
proof fn lemma_undirected_in_range(pairs: Seq<(usize, usize)>, n: nat)
    requires
        forall|j: int| 0 <= j < pairs.len() ==> (#[trigger] pairs[j]).0 < n && pairs[j].1 < n,
    ensures
        forall|j: int|
            0 <= j < undirected_edges(pairs).len() ==> (#[trigger] undirected_edges(pairs)[j]).0 < n
                && undirected_edges(pairs)[j].1 < n,
    decreases pairs.len(),
{
    if pairs.len() > 0 {
        let rest = pairs.drop_last();
        lemma_undirected_in_range(rest, n);
        let kept = undirected_edges(rest);
        let all = undirected_edges(pairs);
        assert(pairs.last() == pairs[pairs.len() - 1]);
        assert forall|j: int| 0 <= j < all.len() implies (#[trigger] all[j]).0 < n && all[j].1 < n by {
            if j < kept.len() {
                assert(all[j] == kept[j]);
            } else {
                assert(all[j] == pairs.last());
            }
        }
    }
}

/// Each node has a parent among the nodes; a node that is not its own parent
/// is deeper than its parent.
pub open spec fn forest(parent: Seq<usize>, depth: Seq<nat>) -> bool {
    &&& depth.len() == parent.len()
    &&& forall|x: int|
        0 <= x < parent.len() ==> #[trigger] parent[x] < parent.len() && (parent[x] != x
            ==> depth[parent[x] as int] < depth[x])
}

/// The node reached from `x` by following parents until a node is its own.
pub open spec fn root(parent: Seq<usize>, depth: Seq<nat>, x: int) -> int
    decreases depth[x],
    when forest(parent, depth) && 0 <= x < parent.len()
{
    if parent[x] == x {
        x
    } else {
        root(parent, depth, parent[x] as int)
    }
}

proof fn lemma_root_is_root(parent: Seq<usize>, depth: Seq<nat>, x: int)
    requires
        forest(parent, depth),
        0 <= x < parent.len(),
    ensures
        0 <= root(parent, depth, x) < parent.len(),
        parent[root(parent, depth, x)] == root(parent, depth, x),
    decreases depth[x],
{
    if parent[x] != x {
        lemma_root_is_root(parent, depth, parent[x] as int);
    }
}

/// Depths after the tree of root `rj` is hung below root `ri`.
spec fn depth_after_link(parent: Seq<usize>, depth: Seq<nat>, ri: int, rj: int) -> Seq<nat> {
    Seq::new(
        parent.len(),
        |x: int|
            if root(parent, depth, x) == rj {
                depth[x] + depth[ri] + 1
            } else {
                depth[x]
            },
    )
}

proof fn lemma_link_forest(parent: Seq<usize>, depth: Seq<nat>, ri: int, rj: int)
    requires
        forest(parent, depth),
        0 <= ri < parent.len(),
        0 <= rj < parent.len(),
        parent[ri] == ri,
        parent[rj] == rj,
        ri != rj,
    ensures
        forest(parent.update(rj, ri as usize), depth_after_link(parent, depth, ri, rj)),
{
    let pb = parent.update(rj, ri as usize);
    let db = depth_after_link(parent, depth, ri, rj);
    assert forall|x: int| 0 <= x < pb.len() implies #[trigger] pb[x] < pb.len() && (pb[x] != x
        ==> db[pb[x] as int] < db[x]) by {
        if x != rj && parent[x] != x {
            assert(root(parent, depth, x) == root(parent, depth, parent[x] as int));
        }
    }
}

/// After the tree of root `rj` is hung below root `ri`, its nodes have root
/// `ri`, and the others keep theirs.
proof fn lemma_link_roots(parent: Seq<usize>, depth: Seq<nat>, ri: int, rj: int, x: int)
    requires
        forest(parent, depth),
        0 <= ri < parent.len(),
        0 <= rj < parent.len(),
        parent[ri] == ri,
        parent[rj] == rj,
        ri != rj,
        0 <= x < parent.len(),
    ensures
        root(parent.update(rj, ri as usize), depth_after_link(parent, depth, ri, rj), x) == if root(
            parent,
            depth,
            x,
        ) == rj {
            ri
        } else {
            root(parent, depth, x)
        },
    decreases depth[x],
{
    let pb = parent.update(rj, ri as usize);
    let db = depth_after_link(parent, depth, ri, rj);
    lemma_link_forest(parent, depth, ri, rj);
    if x == rj {
        assert(root(pb, db, ri) == ri);
    } else if parent[x] != x {
        lemma_link_roots(parent, depth, ri, rj, parent[x] as int);
    }
}

proof fn lemma_chain_one(es: Seq<(usize, usize)>, x: int)
    ensures
        connected(es, x, x),
{
    let path = seq![x];
    let ks = Seq::<int>::empty();
    assert(is_chain(es, path, ks) && path[0] == x && path.last() == x);
}

proof fn lemma_chain_link(es: Seq<(usize, usize)>, k: int, x: int, y: int)
    requires
        0 <= k < es.len(),
        links(es[k], x, y),
    ensures
        connected(es, x, y),
{
    let path = seq![x, y];
    let ks = seq![k];
    assert(is_chain(es, path, ks) && path[0] == x && path.last() == y);
}

proof fn lemma_chain_symmetric(es: Seq<(usize, usize)>, x: int, y: int)
    requires
        connected(es, x, y),
    ensures
        connected(es, y, x),
{
    let (path, ks) = choose|path: Seq<int>, ks: Seq<int>|
        is_chain(es, path, ks) && path[0] == x && path.last() == y;
    let l = path.len() as int;
    let rp = Seq::new(l as nat, |i: int| path[l - 1 - i]);
    let rk = Seq::new((l - 1) as nat, |i: int| ks[l - 2 - i]);
    assert forall|i: int| 0 <= i < rk.len() implies 0 <= #[trigger] rk[i] < es.len() && links(
        es[rk[i]],
        rp[i],
        rp[i + 1],
    ) by {
        let j = l - 2 - i;
        assert(0 <= ks[j] < es.len() && links(es[ks[j]], path[j], path[j + 1]));
    }
    assert(is_chain(es, rp, rk) && rp[0] == y && rp.last() == x);
}

proof fn lemma_chain_join(es: Seq<(usize, usize)>, x: int, y: int, z: int)
    requires
        connected(es, x, y),
        connected(es, y, z),
    ensures
        connected(es, x, z),
{
    let (pa, ka) = choose|path: Seq<int>, ks: Seq<int>|
        is_chain(es, path, ks) && path[0] == x && path.last() == y;
    let (pb, kb) = choose|path: Seq<int>, ks: Seq<int>|
        is_chain(es, path, ks) && path[0] == y && path.last() == z;
    let path = pa + pb.drop_first();
    let ks = ka + kb;
    assert forall|i: int| 0 <= i < ks.len() implies 0 <= #[trigger] ks[i] < es.len() && links(
        es[ks[i]],
        path[i],
        path[i + 1],
    ) by {
        if i < ka.len() {
            assert(0 <= ka[i] < es.len() && links(es[ka[i]], pa[i], pa[i + 1]));
        } else {
            let j = i - ka.len();
            assert(0 <= kb[j] < es.len() && links(es[kb[j]], pb[j], pb[j + 1]));
        }
    }
    assert(is_chain(es, path, ks) && path[0] == x && path.last() == z);
}

proof fn lemma_chain_more(es: Seq<(usize, usize)>, e: (usize, usize), x: int, y: int)
    requires
        connected(es, x, y),
    ensures
        connected(es.push(e), x, y),
{
    let (path, ks) = choose|path: Seq<int>, ks: Seq<int>|
        is_chain(es, path, ks) && path[0] == x && path.last() == y;
    let es2 = es.push(e);
    assert forall|i: int| 0 <= i < ks.len() implies 0 <= #[trigger] ks[i] < es2.len() && links(
        es2[ks[i]],
        path[i],
        path[i + 1],
    ) by {
        assert(es2[ks[i]] == es[ks[i]]);
    }
    assert(is_chain(es2, path, ks));
}

/// Nodes that a chain joins have the same root, when every pair does.
proof fn lemma_chain_same_root(
    es: Seq<(usize, usize)>,
    parent: Seq<usize>,
    depth: Seq<nat>,
    path: Seq<int>,
    ks: Seq<int>,
    i: int,
)
    requires
        forest(parent, depth),
        forall|k: int|
            0 <= k < es.len() ==> (#[trigger] es[k]).0 < parent.len() && es[k].1 < parent.len()
                && root(parent, depth, es[k].0 as int) == root(parent, depth, es[k].1 as int),
        is_chain(es, path, ks),
        0 <= path[0] < parent.len(),
        0 <= i < path.len(),
    ensures
        0 <= path[i] < parent.len(),
        root(parent, depth, path[i]) == root(parent, depth, path[0]),
    decreases i,
{
    if i > 0 {
        lemma_chain_same_root(es, parent, depth, path, ks, i - 1);
        assert(0 <= ks[i - 1] < es.len() && links(es[ks[i - 1]], path[i - 1], path[i]));
    }
}

/// A forest of `n` nodes, each its own root.
fn singletons(n: usize) -> (r: Vec<usize>)
    ensures
        r@ == Seq::new(n as nat, |i: int| i as usize),
{
    let mut r: Vec<usize> = Vec::new();
    let mut i: usize = 0;
    while i < n
        invariant
            i <= n,
            r@ == Seq::new(i as nat, |j: int| j as usize),
        decreases n - i,
    {
        r.push(i);
        i += 1;
        assert(r@ =~= Seq::new(i as nat, |j: int| j as usize));
    }
    r
}

/// The root of `node`, following parents.
fn find_parent(parent: &Vec<usize>, node: usize, Ghost(depth): Ghost<Seq<nat>>) -> (r: usize)
    requires
        forest(parent@, depth),
        node < parent@.len(),
    ensures
        r == root(parent@, depth, node as int),
    decreases depth[node as int],
{
    if node == parent[node] {
        return node;
    }
    find_parent(parent, parent[node], Ghost(depth))
}

/// Hangs the tree of `n_j` below the root of `n_i`; nothing changes when they
/// share a root. Returns the depths under which the parents form a forest.
fn union(parent: &mut Vec<usize>, n_i: usize, n_j: usize, Ghost(depth): Ghost<Seq<nat>>) -> (r: Ghost<
    Seq<nat>,
>)
    requires
        forest(old(parent)@, depth),
        n_i < old(parent)@.len(),
        n_j < old(parent)@.len(),
    ensures
        forest(final(parent)@, r@),
        final(parent)@.len() == old(parent)@.len(),
        forall|x: int|
            0 <= x < old(parent)@.len() ==> #[trigger] root(final(parent)@, r@, x) == if root(
                old(parent)@,
                depth,
                x,
            ) == root(old(parent)@, depth, n_j as int) {
                root(old(parent)@, depth, n_i as int)
            } else {
                root(old(parent)@, depth, x)
            },
{
    let n_i_p = find_parent(parent, n_i, Ghost(depth));
    let n_j_p = find_parent(parent, n_j, Ghost(depth));
    proof {
        lemma_root_is_root(parent@, depth, n_i as int);
        lemma_root_is_root(parent@, depth, n_j as int);
    }
    if n_i_p == n_j_p {
        return Ghost(depth);
    }
    let ghost before = parent@;
    parent.set(n_j_p, n_i_p);
    proof {
        lemma_link_forest(before, depth, n_i_p as int, n_j_p as int);
        assert forall|x: int| 0 <= x < before.len() implies #[trigger] root(
            parent@,
            depth_after_link(before, depth, n_i_p as int, n_j_p as int),
            x,
        ) == if root(before, depth, x) == n_j_p as int {
            n_i_p as int
        } else {
            root(before, depth, x)
        } by {
            lemma_link_roots(before, depth, n_i_p as int, n_j_p as int, x);
        }
    }
    Ghost(depth_after_link(before, depth, n_i_p as int, n_j_p as int))
}

/// The pairs of `pairs` in order, without those that join the same two nodes
/// as one kept before; see [`undirected_edges`].
fn undirected_edges_of(pairs: &Vec<(usize, usize)>) -> (r: Vec<(usize, usize)>)
    ensures
        r@ == undirected_edges(pairs@),
{
    let mut kept: Vec<(usize, usize)> = Vec::new();
    let mut i: usize = 0;
    while i < pairs.len()
        invariant
            i <= pairs@.len(),
            kept@ == undirected_edges(pairs@.take(i as int)),
        decreases pairs@.len() - i,
    {
        let e = pairs[i];
        let mut found = false;
        let mut j: usize = 0;
        while j < kept.len()
            invariant
                i < pairs@.len(),
                e == pairs@[i as int],
                kept@ == undirected_edges(pairs@.take(i as int)),
                j <= kept@.len(),
                found == exists|m: int| 0 <= m < j && links(kept@[m], e.0 as int, e.1 as int),
            decreases kept@.len() - j,
        {
            let f = kept[j];
            if (f.0 == e.0 && f.1 == e.1) || (f.0 == e.1 && f.1 == e.0) {
                found = true;
            }
            j += 1;
        }
        assert(pairs@.take(i + 1).drop_last() =~= pairs@.take(i as int));
        if !found {
            kept.push(e);
        }
        i += 1;
    }
    assert(pairs@.take(pairs@.len() as int) =~= pairs@);
    kept
}

/// Whether the graph, with each edge taken both ways, has a cycle: the pairs
/// of [`Graph::all_edges`], each two nodes joined once, are merged one by one
/// into groups of joined nodes (union-find), and a pair whose two nodes are
/// already joined closes a cycle. An edge from a node to itself is a cycle.
pub fn has_cycle(g: &Graph) -> (r: bool)
    ensures
        r == closes_cycle(undirected_edges(edge_pairs(g@))),
{
    let n = g.nodes();
    let ghost adj = g@;
    let mut parent = singletons(n);
    let ghost mut depth: Seq<nat> = Seq::new(n as nat, |i: int| 0nat);
    let pairs = g.all_edges();
    let edges = undirected_edges_of(&pairs);
    let ghost es = edges@;
    proof {
        lemma_edge_pairs_in_range(adj, adj.len() as int);
        lemma_undirected_in_range(pairs@, n as nat);
        assert forall|x: int| 0 <= x < n implies connected(
            es.take(0),
            x,
            #[trigger] root(parent@, depth, x),
        ) by {
            assert(root(parent@, depth, x) == x);
            lemma_chain_one(es.take(0), x);
        }
    }
    let mut k: usize = 0;
    while k < edges.len()
        invariant
            es == edges@,
            es == undirected_edges(edge_pairs(g@)),
            n == parent@.len(),
            forest(parent@, depth),
            k <= es.len(),
            forall|m: int| 0 <= m < es.len() ==> (#[trigger] es[m]).0 < n && es[m].1 < n,
            forall|m: int|
                0 <= m < k ==> root(parent@, depth, (#[trigger] es[m]).0 as int) == root(
                    parent@,
                    depth,
                    es[m].1 as int,
                ),
            forall|x: int|
                0 <= x < n ==> connected(es.take(k as int), x, #[trigger] root(parent@, depth, x)),
            forall|m: int|
                0 <= m < k ==> !connected(#[trigger] es.take(m), es[m].0 as int, es[m].1 as int),
        decreases es.len() - k,
    {
        let (a, b) = edges[k];
        assert(es[k as int] == (a, b));
        let ghost t = es.take(k as int);
        let ri = find_parent(&parent, a, Ghost(depth));
        let rj = find_parent(&parent, b, Ghost(depth));
        proof {
            lemma_root_is_root(parent@, depth, a as int);
            lemma_root_is_root(parent@, depth, b as int);
        }
        if ri == rj {
            proof {
                assert(connected(t, a as int, ri as int));
                assert(connected(t, b as int, ri as int));
                lemma_chain_symmetric(t, b as int, ri as int);
                lemma_chain_join(t, a as int, ri as int, b as int);
            }
            return true;
        }
        proof {
            if connected(t, a as int, b as int) {
                let (path, ks) = choose|path: Seq<int>, ks: Seq<int>|
                    is_chain(t, path, ks) && path[0] == a as int && path.last() == b as int;
                assert forall|m: int| 0 <= m < t.len() implies (#[trigger] t[m]).0 < parent@.len()
                    && t[m].1 < parent@.len() && root(parent@, depth, t[m].0 as int) == root(
                    parent@,
                    depth,
                    t[m].1 as int,
                ) by {
                    assert(t[m] == es[m]);
                }
                lemma_chain_same_root(t, parent@, depth, path, ks, path.len() - 1);
            }
        }
        let ghost old_parent = parent@;
        let ghost old_depth = depth;
        let Ghost(next_depth) = union(&mut parent, ri, rj, Ghost(depth));
        proof {
            depth = next_depth;
            let grown = es.take(k + 1);
            assert(grown =~= t.push((a, b)));
            assert(root(old_parent, old_depth, ri as int) == ri);
            assert(root(old_parent, old_depth, rj as int) == rj);
            assert forall|m: int| 0 <= m < k + 1 implies root(
                parent@,
                depth,
                (#[trigger] es[m]).0 as int,
            ) == root(parent@, depth, es[m].1 as int) by {
                assert(root(parent@, depth, es[m].0 as int) == if root(
                    old_parent,
                    old_depth,
                    es[m].0 as int,
                ) == rj as int {
                    ri as int
                } else {
                    root(old_parent, old_depth, es[m].0 as int)
                });
                assert(root(parent@, depth, es[m].1 as int) == if root(
                    old_parent,
                    old_depth,
                    es[m].1 as int,
                ) == rj as int {
                    ri as int
                } else {
                    root(old_parent, old_depth, es[m].1 as int)
                });
            }
            lemma_chain_link(grown, k as int, b as int, a as int);
            assert forall|x: int| 0 <= x < n implies connected(
                grown,
                x,
                #[trigger] root(parent@, depth, x),
            ) by {
                let rx = root(old_parent, old_depth, x);
                assert(connected(t, x, rx));
                lemma_chain_more(t, (a, b), x, rx);
                if rx == rj as int {
                    assert(connected(t, b as int, rj as int));
                    lemma_chain_symmetric(t, b as int, rj as int);
                    lemma_chain_more(t, (a, b), rj as int, b as int);
                    assert(connected(t, a as int, ri as int));
                    lemma_chain_more(t, (a, b), a as int, ri as int);
                    lemma_chain_join(grown, x, rj as int, b as int);
                    lemma_chain_join(grown, x, b as int, a as int);
                    lemma_chain_join(grown, x, a as int, ri as int);
                }
            }
        }
        k += 1;
    }
    false
}

} // verus!
