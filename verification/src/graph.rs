use std::collections::HashSet;
use vstd::prelude::*;
use vstd::std_specs::iter::IteratorSpec;

verus! {

/// Every neighbour index is a node of the graph, and adjacency is symmetric.
pub open spec fn adjacency_wf(adj: Seq<Set<usize>>) -> bool {
    forall|i: int, j: usize|
        0 <= i < adj.len() && #[trigger] adj[i].contains(j) ==> {
            &&& j < adj.len()
            &&& adj[j as int].contains(i as usize)
        }
}

/// The graph on `n` nodes without edges.
pub open spec fn empty_adjacency(n: nat) -> Seq<Set<usize>> {
    Seq::new(n, |i: int| Set::<usize>::empty())
}

/// No node is its own neighbour.
pub open spec fn loop_free(adj: Seq<Set<usize>>) -> bool {
    forall|i: int| 0 <= i < adj.len() ==> !#[trigger] adj[i].contains(i as usize)
}

/// `adj` with the edge between `a` and `b` added to both endpoints.
pub open spec fn with_edge(adj: Seq<Set<usize>>, a: usize, b: usize) -> Seq<Set<usize>> {
    let first = adj.update(a as int, adj[a as int].insert(b));
    first.update(b as int, first[b as int].insert(a))
}

/// `adj` with the edge between `a` and `b` taken out of both endpoints.
pub open spec fn without_edge(adj: Seq<Set<usize>>, a: usize, b: usize) -> Seq<Set<usize>> {
    let first = adj.update(a as int, adj[a as int].remove(b));
    first.update(b as int, first[b as int].remove(a))
}

/// Whether `x`–`y` is an edge once the neighbourhood of `v` has been complemented: two
/// distinct neighbours of `v` are joined exactly when they were not joined before, and
/// every other pair keeps its state.
pub open spec fn complemented_edge(adj: Seq<Set<usize>>, v: usize, x: int, y: usize) -> bool {
    let nv = adj[v as int];
    if x != y as int && nv.contains(x as usize) && nv.contains(y) {
        !adj[x].contains(y)
    } else {
        adj[x].contains(y)
    }
}

/// The local complementation of `adj` at `v`.
pub open spec fn local_complement(adj: Seq<Set<usize>>, v: usize) -> Seq<Set<usize>> {
    Seq::new(adj.len(), |x: int| Set::new(|y: usize| complemented_edge(adj, v, x, y)))
}

/// `row`, the neighbours of `r`, with membership flipped for every element of
/// `toggles` other than `r` itself.
spec fn flip_row(row: Set<usize>, r: usize, toggles: Set<usize>) -> Set<usize> {
    Set::new(|y: usize| if y != r && toggles.contains(y) { !row.contains(y) } else { row.contains(y) })
}

/// The largest number of neighbours of any node, `0` for a graph without nodes.
pub open spec fn max_degree_of(adj: Seq<Set<usize>>) -> nat
    decreases adj.len(),
{
    if adj.len() == 0 {
        0
    } else {
        let rest = max_degree_of(adj.drop_last());
        if adj.last().len() > rest {
            adj.last().len()
        } else {
            rest
        }
    }
}

/// The sum over all nodes of their number of neighbours.
pub open spec fn total_degree(adj: Seq<Set<usize>>) -> nat
    decreases adj.len(),
{
    if adj.len() == 0 {
        0
    } else {
        total_degree(adj.drop_last()) + adj.last().len()
    }
}

/// The number of edges, each counted once at its larger endpoint: the sum over all nodes
/// of their neighbours below them.
pub open spec fn edge_count(adj: Seq<Set<usize>>) -> nat
    decreases adj.len(),
{
    if adj.len() == 0 {
        0
    } else {
        edge_count(adj.drop_last()) + adj.last().filter(|j: usize| (j as int) < adj.len() - 1).len()
    }
}

/// Every set of `adj` with `x` taken out.
spec fn without_member(adj: Seq<Set<usize>>, x: usize) -> Seq<Set<usize>> {
    Seq::new(adj.len(), |i: int| adj[i].remove(x))
}

/// The nodes whose set contains `x`.
spec fn holders(adj: Seq<Set<usize>>, x: usize) -> Set<usize> {
    Set::new(|i: usize| (i as int) < adj.len() && adj[i as int].contains(x))
}

/// The graph after a sequence of edge changes, applied in order: `(true, a, b)` adds the
/// edge `a`–`b` and `(false, a, b)` removes it.
pub open spec fn apply_edge_changes(adj: Seq<Set<usize>>, changes: Seq<(bool, usize, usize)>) -> Seq<Set<usize>>
    decreases changes.len(),
{
    if changes.len() == 0 {
        adj
    } else {
        let prev = apply_edge_changes(adj, changes.drop_last());
        let (add, a, b) = changes.last();
        if add {
            with_edge(prev, a, b)
        } else {
            without_edge(prev, a, b)
        }
    }
}

/// An undirected graph on the nodes `0..n`, kept as one set of neighbours per node.
#[derive(Debug)]
pub struct Graph {
    nodes: Vec<HashSet<usize>>,
}

impl View for Graph {
    type V = Seq<Set<usize>>;

    closed spec fn view(&self) -> Seq<Set<usize>> {
        self.nodes@.map_values(|s: HashSet<usize>| s@)
    }
}

/// The total degree of a prefix is at most that of the whole sequence.
proof fn lemma_total_degree_prefix(adj: Seq<Set<usize>>, k: int)
    requires
        0 <= k <= adj.len(),
    ensures
        total_degree(adj.take(k)) <= total_degree(adj),
    decreases adj.len(),
{
    if k < adj.len() {
        assert(adj.drop_last().take(k) =~= adj.take(k));
        lemma_total_degree_prefix(adj.drop_last(), k);
    } else {
        assert(adj.take(k) =~= adj);
    }
}

/// Local complementation keeps the adjacency well formed.
pub proof fn lemma_local_complement_wf(adj: Seq<Set<usize>>, v: usize)
    requires
        adjacency_wf(adj),
        v < adj.len(),
        adj.len() <= usize::MAX,
    ensures
        adjacency_wf(local_complement(adj, v)),
{
    let lc = local_complement(adj, v);
    assert forall|i: int, j: usize| 0 <= i < lc.len() && #[trigger] lc[i].contains(j) implies {
        &&& j < lc.len()
        &&& lc[j as int].contains(i as usize)
    } by {
        let nv = adj[v as int];
        if i != j as int && nv.contains(i as usize) && nv.contains(j) {
            assert(j < adj.len());
            if adj[j as int].contains(i as usize) {
                assert(adj[i].contains(j));
            }
        } else {
            assert(adj[i].contains(j));
            assert(adj[j as int].contains(i as usize));
        }
    }
}

/// Local complementation at `v` keeps a graph free of self-loops.
pub proof fn lemma_local_complement_loop_free(adj: Seq<Set<usize>>, v: usize)
    requires
        loop_free(adj),
        v < adj.len(),
        adj.len() <= usize::MAX,
    ensures
        loop_free(local_complement(adj, v)),
{
    let lc = local_complement(adj, v);
    assert forall|i: int| 0 <= i < lc.len() implies !#[trigger] lc[i].contains(i as usize) by {
        assert(!adj[i].contains(i as usize));
    }
}

/// Local complementation at `v` leaves the neighbours of `v` as they were, where `v` is
/// not its own neighbour.
pub proof fn lemma_local_complement_keeps_neighbourhood(adj: Seq<Set<usize>>, v: usize)
    requires
        v < adj.len(),
        !adj[v as int].contains(v),
    ensures
        local_complement(adj, v)[v as int] == adj[v as int],
{
    assert(local_complement(adj, v)[v as int] =~= adj[v as int]);
}

/// Local complementation is an involution: complementing the neighbourhood of `v` twice
/// gives back the graph, where `v` is not its own neighbour.
pub proof fn lemma_local_complement_involution(adj: Seq<Set<usize>>, v: usize)
    requires
        adjacency_wf(adj),
        v < adj.len(),
        adj.len() <= usize::MAX,
        !adj[v as int].contains(v),
    ensures
        local_complement(local_complement(adj, v), v) == adj,
{
    let once = local_complement(adj, v);
    lemma_local_complement_keeps_neighbourhood(adj, v);
    assert forall|x: int| 0 <= x < adj.len() implies #[trigger] local_complement(once, v)[x] == adj[x] by {
        assert(local_complement(once, v)[x] =~= adj[x]);
    }
    assert(local_complement(once, v) =~= adj);
}

/// Removing an edge that was just added gives back the graph, where the edge was not
/// there before.
pub proof fn lemma_remove_undoes_add(adj: Seq<Set<usize>>, a: usize, b: usize)
    requires
        adjacency_wf(adj),
        a < adj.len(),
        b < adj.len(),
        adj.len() <= usize::MAX,
        !adj[a as int].contains(b),
    ensures
        without_edge(with_edge(adj, a, b), a, b) == adj,
{
    assert(!adj[b as int].contains(a));
    let back = without_edge(with_edge(adj, a, b), a, b);
    assert forall|x: int| 0 <= x < adj.len() implies #[trigger] back[x] == adj[x] by {
        assert(back[x] =~= adj[x]);
    }
    assert(back =~= adj);
}

impl Clone for Graph {
    /// A graph with the same nodes and edges.
    fn clone(&self) -> (g: Graph)
        ensures
            g@ == self@,
    {
        let n = self.nodes.len();
        let mut nodes: Vec<HashSet<usize>> = Vec::with_capacity(n);
        for i in 0..n
            invariant
                n == self@.len(),
                nodes@.len() == i,
                forall|k: int| 0 <= k < i ==> (#[trigger] nodes@[k])@ == self@[k],
        {
            let nbs = self.neighbour_list(i);
            let mut set: HashSet<usize> = HashSet::new();
            for t in 0..nbs.len()
                invariant
                    set@ == nbs@.take(t as int).to_set(),
            {
                set.insert(nbs[t]);
                assert(nbs@.take(t + 1) =~= nbs@.take(t as int).push(nbs@[t as int]));
                proof {
                    nbs@.take(t as int).lemma_push_to_set_commute(nbs@[t as int]);
                }
            }
            assert(nbs@.take(nbs@.len() as int) =~= nbs@);
            nodes.push(set);
        }
        let g = Graph { nodes };
        assert(g@ =~= self@);
        g
    }
}

/// A node has at most as many neighbours as the graph has nodes, and finitely many.
pub proof fn lemma_degree_bound(adj: Seq<Set<usize>>, v: int)
    requires
        adjacency_wf(adj),
        0 <= v < adj.len(),
        adj.len() <= usize::MAX,
    ensures
        adj[v].finite(),
        adj[v].len() <= adj.len(),
{
    let all = Set::<usize>::range(0, adj.len() as usize);
    <usize as vstd::set_lib::FiniteRange>::range_properties(0, adj.len() as usize);
    assert(adj[v].subset_of(all));
    vstd::set_lib::lemma_len_subset(adj[v], all);
}

/// Replacing one set changes the total degree by the difference of the two sizes.
proof fn lemma_total_degree_update(adj: Seq<Set<usize>>, i: int, s: Set<usize>)
    requires
        0 <= i < adj.len(),
    ensures
        total_degree(adj.update(i, s)) + adj[i].len() == total_degree(adj) + s.len(),
    decreases adj.len(),
{
    if i < adj.len() - 1 {
        assert(adj.update(i, s).drop_last() =~= adj.drop_last().update(i, s));
        lemma_total_degree_update(adj.drop_last(), i, s);
    } else {
        assert(adj.update(i, s).drop_last() =~= adj.drop_last());
    }
}

/// Adding an edge keeps the adjacency well formed, and free of self-loops where the
/// endpoints differ.
pub proof fn lemma_with_edge_wf(adj: Seq<Set<usize>>, a: usize, b: usize)
    requires
        adjacency_wf(adj),
        a < adj.len(),
        b < adj.len(),
        adj.len() <= usize::MAX,
    ensures
        adjacency_wf(with_edge(adj, a, b)),
        with_edge(adj, a, b).len() == adj.len(),
        loop_free(adj) && a != b ==> loop_free(with_edge(adj, a, b)),
{
    let w = with_edge(adj, a, b);
    assert forall|i: int, j: usize| 0 <= i < w.len() && #[trigger] w[i].contains(j) implies {
        &&& j < w.len()
        &&& w[j as int].contains(i as usize)
    } by {
        if !(i == a && j == b) && !(i == b && j == a) {
            assert(adj[i].contains(j));
            assert(adj[j as int].contains(i as usize));
        }
    }
    if loop_free(adj) && a != b {
        assert forall|i: int| 0 <= i < w.len() implies !#[trigger] w[i].contains(i as usize) by {
            assert(!adj[i].contains(i as usize));
        }
    }
}

/// Removing an edge keeps the adjacency well formed and free of self-loops.
pub proof fn lemma_without_edge_wf(adj: Seq<Set<usize>>, a: usize, b: usize)
    requires
        adjacency_wf(adj),
        a < adj.len(),
        b < adj.len(),
        adj.len() <= usize::MAX,
    ensures
        adjacency_wf(without_edge(adj, a, b)),
        without_edge(adj, a, b).len() == adj.len(),
        loop_free(adj) ==> loop_free(without_edge(adj, a, b)),
{
    let w = without_edge(adj, a, b);
    assert forall|i: int, j: usize| 0 <= i < w.len() && #[trigger] w[i].contains(j) implies {
        &&& j < w.len()
        &&& w[j as int].contains(i as usize)
    } by {
        let first = adj.update(a as int, adj[a as int].remove(b));
        assert(w == first.update(b as int, first[b as int].remove(a)));
        assert(first[i].contains(j));
        assert(adj[i].contains(j));
        assert(adj[j as int].contains(i as usize));
        assert(!(i == a && j == b));
        assert(!(i == b && j == a));
        assert(first[j as int].contains(i as usize));
    }
}

/// Adding an edge between two distinct nodes of a graph without self-loops raises the
/// number of edges by one where the edge was absent, and keeps it where it was there.
pub proof fn lemma_add_edge_count(adj: Seq<Set<usize>>, a: usize, b: usize)
    requires
        adjacency_wf(adj),
        loop_free(adj),
        a < adj.len(),
        b < adj.len(),
        a != b,
        adj.len() <= usize::MAX,
    ensures
        edge_count(with_edge(adj, a, b)) == edge_count(adj) + if adj[a as int].contains(b) { 0nat } else { 1nat },
{
    let first = adj.update(a as int, adj[a as int].insert(b));
    let w = with_edge(adj, a, b);
    lemma_degree_bound(adj, a as int);
    lemma_degree_bound(adj, b as int);
    lemma_total_degree_update(adj, a as int, adj[a as int].insert(b));
    assert(first[b as int] == adj[b as int]);
    lemma_total_degree_update(first, b as int, adj[b as int].insert(a));
    assert(adj[a as int].contains(b) == adj[b as int].contains(a));
    lemma_with_edge_wf(adj, a, b);
    lemma_handshake(adj);
    lemma_handshake(w);
}

/// Removing the edge between two distinct nodes of a graph without self-loops lowers the
/// number of edges by one where the edge was there, and keeps it where it was absent.
pub proof fn lemma_remove_edge_count(adj: Seq<Set<usize>>, a: usize, b: usize)
    requires
        adjacency_wf(adj),
        loop_free(adj),
        a < adj.len(),
        b < adj.len(),
        a != b,
        adj.len() <= usize::MAX,
    ensures
        edge_count(without_edge(adj, a, b)) + if adj[a as int].contains(b) { 1nat } else { 0nat } == edge_count(adj),
{
    let first = adj.update(a as int, adj[a as int].remove(b));
    let w = without_edge(adj, a, b);
    lemma_degree_bound(adj, a as int);
    lemma_degree_bound(adj, b as int);
    lemma_total_degree_update(adj, a as int, adj[a as int].remove(b));
    assert(first[b as int] == adj[b as int]);
    lemma_total_degree_update(first, b as int, adj[b as int].remove(a));
    assert(adj[a as int].contains(b) == adj[b as int].contains(a));
    lemma_without_edge_wf(adj, a, b);
    lemma_handshake(adj);
    lemma_handshake(w);
}

/// A sequence of edge changes between nodes of the graph keeps the number of nodes and
/// keeps the adjacency well formed.
pub proof fn lemma_edge_changes_keep_nodes(adj: Seq<Set<usize>>, changes: Seq<(bool, usize, usize)>)
    requires
        adjacency_wf(adj),
        adj.len() <= usize::MAX,
        forall|k: int| 0 <= k < changes.len() ==> (#[trigger] changes[k]).1 < adj.len() && changes[k].2 < adj.len(),
    ensures
        apply_edge_changes(adj, changes).len() == adj.len(),
        adjacency_wf(apply_edge_changes(adj, changes)),
    decreases changes.len(),
{
    if changes.len() > 0 {
        let rest = changes.drop_last();
        assert forall|k: int| 0 <= k < rest.len() implies (#[trigger] rest[k]).1 < adj.len() && rest[k].2 < adj.len() by {
            assert(rest[k] == changes[k]);
        }
        lemma_edge_changes_keep_nodes(adj, rest);
        let prev = apply_edge_changes(adj, rest);
        let (add, a, b) = changes.last();
        assert(changes[changes.len() - 1] == changes.last());
        if add {
            lemma_with_edge_wf(prev, a, b);
        } else {
            lemma_without_edge_wf(prev, a, b);
        }
    }
}

/// A graph made by `Graph::new(size)` keeps `size` nodes through any sequence of edge
/// changes between its nodes.
pub proof fn lemma_new_graph_keeps_nodes(size: usize, changes: Seq<(bool, usize, usize)>)
    requires
        forall|k: int| 0 <= k < changes.len() ==> (#[trigger] changes[k]).1 < size && changes[k].2 < size,
    ensures
        apply_edge_changes(empty_adjacency(size as nat), changes).len() == size,
{
    lemma_edge_changes_keep_nodes(empty_adjacency(size as nat), changes);
}

/// The total degree of no nodes is zero, and a further node adds its number of
/// neighbours.
pub proof fn lemma_total_degree_sums(adj: Seq<Set<usize>>, s: Set<usize>)
    ensures
        total_degree(Seq::<Set<usize>>::empty()) == 0,
        total_degree(adj.push(s)) == total_degree(adj) + s.len(),
{
    assert(adj.push(s).drop_last() =~= adj);
}

/// The edge count of no nodes is zero, and a further node adds its neighbours below it.
pub proof fn lemma_edge_count_sums(adj: Seq<Set<usize>>, s: Set<usize>)
    ensures
        edge_count(Seq::<Set<usize>>::empty()) == 0,
        edge_count(adj.push(s)) == edge_count(adj) + s.filter(|j: usize| (j as int) < adj.len()).len(),
{
    assert(adj.push(s).drop_last() =~= adj);
}

/// A graph without edges on `n` nodes: it has `n` nodes and no node has a neighbour.
pub proof fn lemma_empty_adjacency_has_no_edges(n: nat)
    ensures
        empty_adjacency(n).len() == n,
        forall|v: int, y: usize| 0 <= v < n ==> !(#[trigger] empty_adjacency(n)[v].contains(y)),
{
}

/// Local complementation at `v` joins every two distinct neighbours of `v` that were not
/// joined and separates every two that were, whatever the degree of `v`, and keeps every
/// other pair of nodes as it was.
pub proof fn lemma_local_complement_toggles(adj: Seq<Set<usize>>, v: usize)
    requires
        v < adj.len(),
    ensures
        local_complement(adj, v).len() == adj.len(),
        forall|x: usize, y: usize|
            x < adj.len() && adj[v as int].contains(x) && adj[v as int].contains(y) && x != y ==> (
            #[trigger] local_complement(adj, v)[x as int].contains(y) <==> !adj[x as int].contains(y)),
        forall|x: usize, y: usize|
            x < adj.len() && !(adj[v as int].contains(x) && adj[v as int].contains(y) && x != y) ==> (
            #[trigger] local_complement(adj, v)[x as int].contains(y) <==> adj[x as int].contains(y)),
{
}

/// The maximum degree is the degree of some node, and no node has a larger degree; it is
/// `0` for a graph without nodes.
pub proof fn lemma_max_degree_attained(adj: Seq<Set<usize>>)
    ensures
        forall|v: int| 0 <= v < adj.len() ==> (#[trigger] adj[v]).len() <= max_degree_of(adj),
        adj.len() > 0 ==> exists|v: int| 0 <= v < adj.len() && (#[trigger] adj[v]).len() == max_degree_of(adj),
        adj.len() == 0 ==> max_degree_of(adj) == 0,
    decreases adj.len(),
{
    assert forall|v: int| 0 <= v < adj.len() implies (#[trigger] adj[v]).len() <= max_degree_of(adj) by {
        lemma_max_degree_bounds(adj, v);
    }
    if adj.len() > 0 {
        let rest = adj.drop_last();
        lemma_max_degree_attained(rest);
        if adj.last().len() > max_degree_of(rest) || rest.len() == 0 {
            assert(adj[adj.len() - 1].len() == max_degree_of(adj));
        } else {
            let w = choose|w: int| 0 <= w < rest.len() && (#[trigger] rest[w]).len() == max_degree_of(rest);
            assert(adj[w] == rest[w]);
        }
    }
}

/// No node has more neighbours than the maximum degree.
pub proof fn lemma_max_degree_bounds(adj: Seq<Set<usize>>, v: int)
    requires
        0 <= v < adj.len(),
    ensures
        adj[v].len() <= max_degree_of(adj),
    decreases adj.len(),
{
    if v < adj.len() - 1 {
        lemma_max_degree_bounds(adj.drop_last(), v);
    }
}

/// Taking `x` out of every set lowers the total degree by the number of sets that held it.
proof fn lemma_total_degree_without_member(adj: Seq<Set<usize>>, x: usize)
    requires
        forall|i: int| 0 <= i < adj.len() ==> (#[trigger] adj[i]).finite(),
        adj.len() <= usize::MAX,
    ensures
        holders(adj, x).finite(),
        total_degree(adj) == total_degree(without_member(adj, x)) + holders(adj, x).len(),
    decreases adj.len(),
{
    if adj.len() == 0 {
        assert(holders(adj, x) =~= Set::empty());
        assert(without_member(adj, x) =~= Seq::<Set<usize>>::empty());
    } else {
        let rest = adj.drop_last();
        let last = (adj.len() - 1) as usize;
        lemma_total_degree_without_member(rest, x);
        assert(without_member(adj, x).drop_last() =~= without_member(rest, x));
        assert(without_member(adj, x).last() == adj.last().remove(x));
        if adj.last().contains(x) {
            assert(holders(adj, x) =~= holders(rest, x).insert(last));
            assert(!holders(rest, x).contains(last));
        } else {
            assert(holders(adj, x) =~= holders(rest, x));
        }
    }
}

/// The edge count only looks, at each node, at the neighbours below it.
proof fn lemma_edge_count_lower(a: Seq<Set<usize>>, b: Seq<Set<usize>>)
    requires
        a.len() == b.len(),
        forall|i: int|
            0 <= i < a.len() ==> (#[trigger] a[i]).filter(|j: usize| (j as int) < i) == b[i].filter(
                |j: usize| (j as int) < i,
            ),
    ensures
        edge_count(a) == edge_count(b),
    decreases a.len(),
{
    if a.len() > 0 {
        let k = a.len() - 1;
        assert(a[k].filter(|j: usize| (j as int) < k) == b[k].filter(|j: usize| (j as int) < k));
        assert forall|i: int| 0 <= i < a.drop_last().len() implies (#[trigger] a.drop_last()[i]).filter(
            |j: usize| (j as int) < i,
        ) == b.drop_last()[i].filter(|j: usize| (j as int) < i) by {
            assert(a[i].filter(|j: usize| (j as int) < i) == b[i].filter(|j: usize| (j as int) < i));
        }
        lemma_edge_count_lower(a.drop_last(), b.drop_last());
    }
}

/// Handshake: in a graph without self-loops the numbers of neighbours add up to twice
/// the number of edges.
pub proof fn lemma_handshake(adj: Seq<Set<usize>>)
    requires
        adjacency_wf(adj),
        loop_free(adj),
        adj.len() <= usize::MAX,
    ensures
        total_degree(adj) == 2 * edge_count(adj),
    decreases adj.len(),
{
    if adj.len() > 0 {
        let n = adj.len();
        let top = (n - 1) as usize;
        let rest = adj.drop_last();
        let smaller = without_member(rest, top);
        let nt = adj[n - 1];
        assert forall|i: int| 0 <= i < rest.len() implies (#[trigger] rest[i]).finite() by {
            lemma_degree_bound(adj, i);
        }
        lemma_degree_bound(adj, n - 1);
        // the smaller graph is again well formed and free of self-loops
        assert forall|i: int, j: usize| 0 <= i < smaller.len() && #[trigger] smaller[i].contains(j) implies {
            &&& j < smaller.len()
            &&& smaller[j as int].contains(i as usize)
        } by {
            assert(adj[i].contains(j));
            assert(adj[j as int].contains(i as usize));
        }
        assert forall|i: int| 0 <= i < smaller.len() implies !#[trigger] smaller[i].contains(i as usize) by {
            assert(!adj[i].contains(i as usize));
        }
        lemma_handshake(smaller);
        // degrees
        lemma_total_degree_without_member(rest, top);
        assert forall|i: usize| holders(rest, top).contains(i) <==> nt.contains(i) by {
            if nt.contains(i) {
                assert(adj[top as int].contains(i));
                assert(i != top);
                assert(adj[i as int].contains(top));
            }
            if holders(rest, top).contains(i) {
                assert(adj[i as int].contains(top));
            }
        }
        assert(holders(rest, top) =~= nt);
        // edges
        assert forall|i: int| 0 <= i < rest.len() implies (#[trigger] rest[i]).filter(|j: usize| (j as int) < i)
            == smaller[i].filter(|j: usize| (j as int) < i) by {
            assert(rest[i].filter(|j: usize| (j as int) < i) =~= smaller[i].filter(|j: usize| (j as int) < i));
        }
        lemma_edge_count_lower(rest, smaller);
        assert forall|j: usize| nt.contains(j) implies (j as int) < n - 1 by {
            assert(adj[n - 1].contains(j));
            assert(j != top);
        }
        assert(adj.last().filter(|j: usize| (j as int) < adj.len() - 1) =~= nt);
    }
}

impl Graph {
    /// The graph's invariant: its adjacency is well formed.
    pub open spec fn wf(&self) -> bool {
        &&& adjacency_wf(self@)
        &&& self@.len() <= usize::MAX
    }

    /// Creates a graph with `size` nodes and no edges.
    pub fn new(size: usize) -> (g: Graph)
        ensures
            g.wf(),
            g@ == empty_adjacency(size as nat),
            g@.len() == size,
            forall|v: int| 0 <= v < size ==> #[trigger] g@[v] == Set::<usize>::empty(),
    {
        let mut nodes: Vec<HashSet<usize>> = Vec::with_capacity(size);
        for i in 0..size
            invariant
                nodes@.len() == i,
                forall|k: int| 0 <= k < i ==> (#[trigger] nodes@[k])@ == Set::<usize>::empty(),
        {
            nodes.push(HashSet::new());
        }
        let g = Graph { nodes };
        assert(g@ =~= empty_adjacency(size as nat));
        g
    }

    /// The underlying neighbour sets, one per node.
    pub fn get_data(&self) -> (data: &Vec<HashSet<usize>>)
        ensures
            data@.map_values(|s: HashSet<usize>| s@) == self@,
    {
        &self.nodes
    }

    /// Adds the edge between `a` and `b`; both must be nodes of the graph.
    pub fn add_edge_unchecked(&mut self, a: usize, b: usize)
        requires
            old(self).wf(),
            a < old(self)@.len(),
            b < old(self)@.len(),
        ensures
            final(self).wf(),
            final(self)@ == with_edge(old(self)@, a, b),
            final(self)@.len() == old(self)@.len(),
            forall|x: int, y: usize|
                0 <= x < old(self)@.len() ==> (#[trigger] final(self)@[x].contains(y) <==> old(self)@[x].contains(y)
                    || (x == a && y == b) || (x == b && y == a)),
    {
        self.nodes[a].insert(b);
        self.nodes[b].insert(a);
        assert(self@ =~= with_edge(old(self)@, a, b));
    }

    /// Adds the edge between the two distinct nodes `a` and `b`.
    pub fn add_edge(&mut self, a: usize, b: usize)
        requires
            old(self).wf(),
            a < old(self)@.len(),
            b < old(self)@.len(),
            a != b,
        ensures
            final(self).wf(),
            final(self)@ == with_edge(old(self)@, a, b),
            final(self)@.len() == old(self)@.len(),
            forall|x: int, y: usize|
                0 <= x < old(self)@.len() ==> (#[trigger] final(self)@[x].contains(y) <==> old(self)@[x].contains(y)
                    || (x == a && y == b) || (x == b && y == a)),
            loop_free(old(self)@) ==> loop_free(final(self)@),
    {
        self.add_edge_unchecked(a, b);
    }

    /// Removes the edge between `a` and `b`; both must be nodes of the graph.
    pub fn remove_edge_unchecked(&mut self, a: usize, b: usize)
        requires
            old(self).wf(),
            a < old(self)@.len(),
            b < old(self)@.len(),
        ensures
            final(self).wf(),
            final(self)@ == without_edge(old(self)@, a, b),
            final(self)@.len() == old(self)@.len(),
            forall|x: int, y: usize|
                0 <= x < old(self)@.len() ==> (#[trigger] final(self)@[x].contains(y) <==> old(self)@[x].contains(y)
                    && !((x == a && y == b) || (x == b && y == a))),
    {
        self.nodes[a].remove(&b);
        self.nodes[b].remove(&a);
        assert(self@ =~= without_edge(old(self)@, a, b));
        let ghost adj = self@;
        let ghost prev = old(self)@;
        assert forall|i: int, j: usize| 0 <= i < adj.len() && #[trigger] adj[i].contains(j) implies {
            &&& j < adj.len()
            &&& adj[j as int].contains(i as usize)
        } by {
            let first = prev.update(a as int, prev[a as int].remove(b));
            assert(adj == first.update(b as int, first[b as int].remove(a)));
            assert(first[i].contains(j));
            assert(prev[i].contains(j));
            assert(prev[j as int].contains(i as usize));
            assert(!(i == a && j == b));
            assert(!(i == b && j == a));
            assert(first[j as int].contains(i as usize));
        }
    }

    /// Removes the edge between the two distinct nodes `a` and `b`.
    pub fn remove_edge(&mut self, a: usize, b: usize)
        requires
            old(self).wf(),
            a < old(self)@.len(),
            b < old(self)@.len(),
            a != b,
        ensures
            final(self).wf(),
            final(self)@ == without_edge(old(self)@, a, b),
            final(self)@.len() == old(self)@.len(),
            forall|x: int, y: usize|
                0 <= x < old(self)@.len() ==> (#[trigger] final(self)@[x].contains(y) <==> old(self)@[x].contains(y)
                    && !((x == a && y == b) || (x == b && y == a))),
            loop_free(old(self)@) ==> loop_free(final(self)@),
    {
        self.remove_edge_unchecked(a, b);
    }

    /// The number of nodes.
    pub fn num_nodes(&self) -> (n: usize)
        ensures
            n == self@.len(),
    {
        self.nodes.len()
    }

    /// The neighbours of `node`, or `None` where `node` is not a node of the graph.
    pub fn get_neighbours(&self, node: usize) -> (r: Option<&HashSet<usize>>)
        ensures
            match r {
                Some(s) => node < self@.len() && s@ == self@[node as int],
                None => node >= self@.len(),
            },
    {
        if node < self.nodes.len() {
            Some(&self.nodes[node])
        } else {
            None
        }
    }

    /// The largest number of neighbours of any node, `0` for a graph without nodes.
    pub fn max_degree(&self) -> (d: usize)
        ensures
            d == max_degree_of(self@),
            forall|v: int| 0 <= v < self@.len() ==> (#[trigger] self@[v]).len() <= d,
            self@.len() > 0 ==> exists|v: int| 0 <= v < self@.len() && (#[trigger] self@[v]).len() == d,
            self@.len() == 0 ==> d == 0,
    {
        proof {
            lemma_max_degree_attained(self@);
        }
        let mut d: usize = 0;
        let n = self.nodes.len();
        for i in 0..n
            invariant
                n == self@.len(),
                d == max_degree_of(self@.take(i as int)),
        {
            let len = self.nodes[i].len();
            assert(self@.take(i + 1).drop_last() =~= self@.take(i as int));
            if len > d {
                d = len;
            }
        }
        assert(self@.take(n as int) =~= self@);
        d
    }

    /// The number of edges: half the sum of the numbers of neighbours.
    pub fn num_edges(&self) -> (e: usize)
        requires
            total_degree(self@) <= usize::MAX,
        ensures
            e == total_degree(self@) / 2,
            self.wf() && loop_free(self@) ==> e == edge_count(self@),
    {
        let mut sum: usize = 0;
        let n = self.nodes.len();
        for i in 0..n
            invariant
                n == self@.len(),
                sum == total_degree(self@.take(i as int)),
                total_degree(self@) <= usize::MAX,
        {
            assert(self@.take(i + 1).drop_last() =~= self@.take(i as int));
            proof {
                lemma_total_degree_prefix(self@, i + 1);
            }
            sum = sum + self.nodes[i].len();
        }
        assert(self@.take(n as int) =~= self@);
        proof {
            if self.wf() && loop_free(self@) {
                lemma_handshake(self@);
            }
        }
        sum / 2
    }

    /// Complements the neighbourhood of `node`: every pair of distinct neighbours of
    /// `node` that was joined is separated, and every pair that was not is joined.
    pub fn local_complementation(&mut self, node: usize)
        requires
            old(self).wf(),
            node < old(self)@.len(),
        ensures
            final(self).wf(),
            final(self)@ == local_complement(old(self)@, node),
            final(self)@.len() == old(self)@.len(),
            forall|x: usize, y: usize|
                x < old(self)@.len() && old(self)@[node as int].contains(x) && old(self)@[node as int].contains(y)
                    && x != y ==> (#[trigger] final(self)@[x as int].contains(y) <==> !old(self)@[x as int].contains(y)),
            forall|x: usize, y: usize|
                x < old(self)@.len() && !(old(self)@[node as int].contains(x) && old(self)@[node as int].contains(y)
                    && x != y) ==> (#[trigger] final(self)@[x as int].contains(y) <==> old(self)@[x as int].contains(y)),
            loop_free(old(self)@) ==> loop_free(final(self)@),
    {
        proof {
            lemma_local_complement_toggles(old(self)@, node);
        }
        let ghost adj = self@;
        let ghost nv = adj[node as int];
        let nbs = self.neighbour_list(node);
        let k = nbs.len();
        let ghost n = adj.len();
        for p in 0..k
            invariant
                k == nbs@.len(),
                nbs@.no_duplicates(),
                nbs@.to_set() == nv,
                node < n,
                nv == adj[node as int],
                adjacency_wf(adj),
                self@.len() == n,
                n == adj.len(),
                n <= usize::MAX,
                forall|r: int|
                    0 <= r < n ==> #[trigger] self@[r] == if nbs@.take(p as int).contains(r as usize) {
                        flip_row(adj[r], r as usize, nv)
                    } else {
                        adj[r]
                    },
        {
            let x = nbs[p];
            assert(nbs@.to_set().contains(x));
            assert(adj[node as int].contains(x));
            assert(!nbs@.take(p as int).contains(x)) by {
                if nbs@.take(p as int).contains(x) {
                    let w = choose|w: int| 0 <= w < p && nbs@.take(p as int)[w] == x;
                    assert(nbs@[w] == nbs@[p as int]);
                }
            }
            assert(self@[x as int] == adj[x as int]);
            for q in 0..k
                invariant
                    k == nbs@.len(),
                    0 <= p < k,
                    x == nbs@[p as int],
                    x < n,
                    n <= usize::MAX,
                    nbs@.no_duplicates(),
                    !nbs@.take(p as int).contains(x),
                    self@.len() == n,
                    n == adj.len(),
                    self@[x as int] == flip_row(adj[x as int], x, nbs@.take(q as int).to_set()),
                    forall|r: int|
                        0 <= r < n && r != x ==> #[trigger] self@[r] == if nbs@.take(p as int).contains(r as usize) {
                            flip_row(adj[r], r as usize, nv)
                        } else {
                            adj[r]
                        },
            {
                let y = nbs[q];
                let ghost prev = self@;
                assert(nbs@.take(q + 1) =~= nbs@.take(q as int).push(y));
                assert(nbs@.take(q + 1).to_set() =~= nbs@.take(q as int).to_set().insert(y)) by {
                    nbs@.take(q as int).lemma_push_to_set_commute(y);
                }
                assert(!nbs@.take(q as int).contains(y)) by {
                    if nbs@.take(q as int).contains(y) {
                        let w = choose|w: int| 0 <= w < q && nbs@.take(q as int)[w] == y;
                        assert(nbs@[w] == nbs@[q as int]);
                    }
                }
                if y != x {
                    if self.nodes[x].contains(&y) {
                        self.nodes[x].remove(&y);
                    } else {
                        self.nodes[x].insert(y);
                    }
                }
                assert(self@[x as int] =~= flip_row(adj[x as int], x, nbs@.take(q + 1).to_set()));
                assert(forall|r: int| 0 <= r < n && r != x ==> #[trigger] self@[r] == prev[r]);
            }
            assert(nbs@.take(k as int) =~= nbs@);
            assert forall|r: int| 0 <= r < n implies #[trigger] self@[r] == if nbs@.take(p + 1).contains(r as usize) {
                flip_row(adj[r], r as usize, nv)
            } else {
                adj[r]
            } by {
                assert(nbs@.take(p + 1) =~= nbs@.take(p as int).push(x));
            }
        }
        assert(nbs@.take(k as int) =~= nbs@);
        assert forall|r: int| 0 <= r < n implies #[trigger] self@[r] == local_complement(adj, node)[r] by {
            assert(self@[r] =~= local_complement(adj, node)[r]);
        }
        assert(self@ =~= local_complement(adj, node));
        proof {
            lemma_local_complement_wf(adj, node);
            if loop_free(adj) {
                lemma_local_complement_loop_free(adj, node);
            }
        }
    }

    /// The neighbours of `node`, each once, in the order in which the set hands them out.
    pub fn neighbour_list(&self, node: usize) -> (v: Vec<usize>)
        requires
            node < self@.len(),
        ensures
            v@.no_duplicates(),
            v@.to_set() == self@[node as int],
            v@.len() == self@[node as int].len(),
    {
        let set = &self.nodes[node];
        let mut v: Vec<usize> = Vec::new();
        let ghost keys = set.iter().remaining().unref();
        for x in it: set.iter()
            invariant
                it.seq().unref() == keys,
                v@ == keys.take(it.index()),
        {
            v.push(*x);
            assert(keys.take(it.index() + 1) =~= keys.take(it.index()).push(*x));
        }
        assert(v@ =~= keys);
        v
    }
}

} // verus!
