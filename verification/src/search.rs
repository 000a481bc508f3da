use crate::graph::{lemma_max_degree_bounds, local_complement, loop_free, max_degree_of, Graph};
use vstd::prelude::*;

verus! {

/// Encoding of a single-qubit Clifford operation, as Cabaliser numbers them.
pub type LcmhSingleQubitClifford = u8;

/// The flag that marks an operation as a local Clifford.
pub const LOCAL_CLIFFORD_MASK: LcmhSingleQubitClifford = 1 << 5;

/// `R = S Z`, which stands for `S^3` on the complemented node.
pub const R_GATE: LcmhSingleQubitClifford = 0x06 | LOCAL_CLIFFORD_MASK;

/// `H S H`, applied to every neighbour of the complemented node.
pub const HSH_GATE: LcmhSingleQubitClifford = 0x14 | LOCAL_CLIFFORD_MASK;

/// The operation recorded for the node whose neighbourhood is complemented.
pub const OP_NODE: LcmhSingleQubitClifford = R_GATE;

/// The operation recorded for each neighbour of that node.
pub const OP_NEIGHBOUR: LcmhSingleQubitClifford = HSH_GATE;

/// One single-qubit Clifford operation on one node.
#[derive(Clone, Copy, Debug, PartialEq, Eq)]
pub struct LcmhSingleQubitCliffordOperation {
    /// The operation that is applied.
    pub operation: LcmhSingleQubitClifford,
    /// The node on which the operation is applied.
    pub node: usize,
}

/// How the search picks the node of the next move.
pub enum VertexSelectionType {
    Random,
    Lexicographic,
}

/// The generator that the search draws its moves from.
#[verifier::external_type_specification]
#[verifier::external_body]
pub struct ExPcg64Mcg(rand_pcg::Mcg128Xsl64);

/// The generator that `SeedableRng::seed_from_u64` of `rand_pcg::Mcg128Xsl64` builds from
/// `seed`; it depends on the seed alone.
pub uninterp spec fn seeded_generator_of(seed: u64) -> rand_pcg::Mcg128Xsl64;

/// What `rand::RngExt::random_range(0..num_nodes)` gives on the generator `rng`: the value
/// drawn and the generator's state afterwards. Both depend on the generator's state and
/// the range alone.
pub uninterp spec fn draw_from(rng: rand_pcg::Mcg128Xsl64, num_nodes: usize) -> (usize, rand_pcg::Mcg128Xsl64);

/// Calls `SeedableRng::seed_from_u64` of `rand_pcg::Mcg128Xsl64`, which computes the
/// generator from the seed alone. What is inside the generator is not stated: the
/// result is only named.
#[verifier::external_body]
fn generator_from_seed(seed: u64) -> (rng: rand_pcg::Mcg128Xsl64)
    ensures
        rng == seeded_generator_of(seed),
{
    <rand_pcg::Mcg128Xsl64 as rand::SeedableRng>::seed_from_u64(seed)
}

/// Calls `rand::RngExt::random_range` with the range `0..num_nodes`, which panics on an
/// empty range and otherwise returns a value inside it. The value and the generator's new
/// state are a function of the generator's state and the range; that function is named,
/// not stated.
#[verifier::external_body]
fn draw_below(rng: &mut rand_pcg::Mcg128Xsl64, num_nodes: usize) -> (node: usize)
    requires
        num_nodes > 0,
    ensures
        node < num_nodes,
        (node, *final(rng)) == draw_from(*old(rng), num_nodes),
{
    rand::RngExt::random_range(rng, 0..num_nodes)
}

/// The seed to use: none where the generator is to be seeded from entropy.
pub fn opt_seed(seed_from_entropy: bool, seed: u64) -> (r: Option<u64>)
    ensures
        r == if seed_from_entropy { None } else { Some(seed) },
{
    if seed_from_entropy {
        None
    } else {
        Some(seed)
    }
}

/// The generator for a search with the given seed, or `None` where there is no seed and
/// the generator has to come from the system's entropy instead.
pub fn seeded_generator(seed: Option<u64>) -> (rng: Option<rand_pcg::Mcg128Xsl64>)
    ensures
        rng == match seed {
            Some(s) => Some(seeded_generator_of(s)),
            None => None,
        },
{
    match seed {
        Some(seed) => Some(generator_from_seed(seed)),
        None => None,
    }
}

/// A proposed move of the search.
pub struct Proposal {
    /// The node whose neighbourhood was complemented.
    pub node: usize,
    /// The number of single-qubit operations recorded once the move is accepted: those
    /// recorded before, the node itself and each of its neighbours.
    pub num_ops: usize,
}

/// Complements the neighbourhood of `node` and returns the number of single-qubit
/// operations that the search holds if it accepts the move.
pub fn propose_move(graph: &mut Graph, node: usize, num_recorded_ops: usize) -> (num_ops: usize)
    requires
        old(graph).wf(),
        node < old(graph)@.len(),
        num_recorded_ops + old(graph)@[node as int].len() + 1 <= usize::MAX,
    ensures
        final(graph).wf(),
        final(graph)@ == local_complement(old(graph)@, node),
        num_ops == num_recorded_ops + old(graph)@[node as int].len() + 1,
        loop_free(old(graph)@) ==> loop_free(final(graph)@),
{
    let num_neighbours = graph.get_neighbours(node).unwrap().len();
    graph.local_complementation(node);
    num_recorded_ops + num_neighbours + 1
}

/// Draws a node uniformly from the graph and proposes the move at it.
pub fn propose_random_move(
    graph: &mut Graph,
    rng: &mut rand_pcg::Mcg128Xsl64,
    num_recorded_ops: usize,
) -> (p: Proposal)
    requires
        old(graph).wf(),
        old(graph)@.len() > 0,
        num_recorded_ops + max_degree_of(old(graph)@) + 1 <= usize::MAX,
    ensures
        p.node < old(graph)@.len(),
        (p.node, *final(rng)) == draw_from(*old(rng), old(graph)@.len() as usize),
        final(graph).wf(),
        final(graph)@ == local_complement(old(graph)@, p.node),
        p.num_ops == num_recorded_ops + old(graph)@[p.node as int].len() + 1,
        loop_free(old(graph)@) ==> loop_free(final(graph)@),
{
    let node = draw_below(rng, graph.num_nodes());
    proof {
        lemma_max_degree_bounds(graph@, node as int);
    }
    let num_ops = propose_move(graph, node, num_recorded_ops);
    Proposal { node, num_ops }
}

/// The operations that accepting a move at `node` of `adj` appends, after the ones
/// recorded before: `node` first, then each of its neighbours once.
pub open spec fn records_move(
    before: Seq<LcmhSingleQubitCliffordOperation>,
    after: Seq<LcmhSingleQubitCliffordOperation>,
    adj: Seq<Set<usize>>,
    node: usize,
) -> bool {
    let added = after.skip(before.len() + 1int);
    &&& after.len() == before.len() + 1 + adj[node as int].len()
    &&& after.take(before.len() as int) == before
    &&& after[before.len() as int] == LcmhSingleQubitCliffordOperation { operation: OP_NODE, node }
    &&& forall|k: int| 0 <= k < added.len() ==> (#[trigger] added[k]).operation == OP_NEIGHBOUR
    &&& added.map_values(|o: LcmhSingleQubitCliffordOperation| o.node).no_duplicates()
    &&& added.map_values(|o: LcmhSingleQubitCliffordOperation| o.node).to_set() == adj[node as int]
}

/// The count that a proposal hands to the cost function is the number of operations
/// recorded once the move is accepted, where the node is not its own neighbour.
pub proof fn lemma_accepted_move_count(
    adj: Seq<Set<usize>>,
    node: usize,
    before: Seq<LcmhSingleQubitCliffordOperation>,
    after: Seq<LcmhSingleQubitCliffordOperation>,
)
    requires
        node < adj.len(),
        !adj[node as int].contains(node),
        records_move(before, after, local_complement(adj, node), node),
    ensures
        after.len() == before.len() + adj[node as int].len() + 1,
{
    crate::graph::lemma_local_complement_keeps_neighbourhood(adj, node);
}

/// What accepting a move records, operation by operation: the operations recorded before
/// stay in front, then comes `OP_NODE` on `node`, then `OP_NEIGHBOUR` once on each
/// neighbour of `node` and on nothing else, whatever the degree of `node`.
pub proof fn lemma_records_move_operations(
    before: Seq<LcmhSingleQubitCliffordOperation>,
    after: Seq<LcmhSingleQubitCliffordOperation>,
    adj: Seq<Set<usize>>,
    node: usize,
)
    requires
        records_move(before, after, adj, node),
    ensures
        after.len() == before.len() + 1 + adj[node as int].len(),
        forall|k: int| 0 <= k < before.len() ==> #[trigger] after[k] == before[k],
        after[before.len() as int].operation == OP_NODE,
        after[before.len() as int].node == node,
        forall|k: int|
            before.len() < k < after.len() ==> (#[trigger] after[k]).operation == OP_NEIGHBOUR
                && adj[node as int].contains(after[k].node),
        forall|y: usize|
            #[trigger] adj[node as int].contains(y) ==> exists|k: int|
                before.len() < k < after.len() && (#[trigger] after[k]).node == y,
        forall|k1: int, k2: int|
            before.len() < k1 < after.len() && before.len() < k2 < after.len() && k1 != k2
                ==> (#[trigger] after[k1]).node != (#[trigger] after[k2]).node,
{
    let start: int = before.len() + 1int;
    let added = after.skip(start);
    let nodes = added.map_values(|o: LcmhSingleQubitCliffordOperation| o.node);
    assert forall|k: int| 0 <= k < before.len() implies #[trigger] after[k] == before[k] by {
        assert(after.take(before.len() as int)[k] == after[k]);
    }
    assert forall|k: int| before.len() < k < after.len() implies (#[trigger] after[k]).operation == OP_NEIGHBOUR
        && adj[node as int].contains(after[k].node) by {
        assert(added[k - start] == after[k]);
        assert(nodes[k - start] == after[k].node);
        assert(nodes.to_set().contains(nodes[k - start]));
    }
    assert forall|y: usize| #[trigger] adj[node as int].contains(y) implies exists|k: int|
        before.len() < k < after.len() && (#[trigger] after[k]).node == y by {
        assert(nodes.to_set().contains(y));
        let q = choose|q: int| 0 <= q < nodes.len() && nodes[q] == y;
        assert(added[q] == after[q + start]);
        assert(after[q + start].node == y);
    }
    assert forall|k1: int, k2: int|
        before.len() < k1 < after.len() && before.len() < k2 < after.len() && k1 != k2 implies (#[trigger] after[k1]).node
        != (#[trigger] after[k2]).node by {
        assert(nodes[k1 - start] == after[k1].node);
        assert(nodes[k2 - start] == after[k2].node);
    }
}

/// Settles a proposed move at `node`. An accepted move records its operations; a rejected
/// one is undone by complementing the neighbourhood of `node` again.
pub fn finish_move(
    graph: &mut Graph,
    ops: &mut Vec<LcmhSingleQubitCliffordOperation>,
    node: usize,
    accepted: bool,
)
    requires
        old(graph).wf(),
        node < old(graph)@.len(),
    ensures
        final(graph).wf(),
        accepted ==> final(graph)@ == old(graph)@ && records_move(old(ops)@, final(ops)@, old(graph)@, node),
        accepted ==> final(ops)@.len() == old(ops)@.len() + 1 + old(graph)@[node as int].len(),
        accepted ==> forall|k: int| 0 <= k < old(ops)@.len() ==> #[trigger] final(ops)@[k] == old(ops)@[k],
        accepted ==> final(ops)@[old(ops)@.len() as int].operation == OP_NODE
            && final(ops)@[old(ops)@.len() as int].node == node,
        accepted ==> forall|k: int|
            old(ops)@.len() < k < final(ops)@.len() ==> (#[trigger] final(ops)@[k]).operation == OP_NEIGHBOUR
                && old(graph)@[node as int].contains(final(ops)@[k].node),
        accepted ==> forall|y: usize|
            #[trigger] old(graph)@[node as int].contains(y) ==> exists|k: int|
                old(ops)@.len() < k < final(ops)@.len() && (#[trigger] final(ops)@[k]).node == y,
        accepted ==> forall|k1: int, k2: int|
            old(ops)@.len() < k1 < final(ops)@.len() && old(ops)@.len() < k2 < final(ops)@.len() && k1 != k2
                ==> (#[trigger] final(ops)@[k1]).node != (#[trigger] final(ops)@[k2]).node,
        !accepted ==> final(graph)@ == local_complement(old(graph)@, node) && final(ops)@ == old(ops)@,
        loop_free(old(graph)@) ==> loop_free(final(graph)@),
{
    if accepted {
        let ghost before = ops@;
        ops.push(LcmhSingleQubitCliffordOperation { operation: OP_NODE, node });
        let nbs = graph.neighbour_list(node);
        let k = nbs.len();
        for t in 0..k
            invariant
                k == nbs@.len(),
                ops@.len() == before.len() + 1 + t,
                ops@.take(before.len() as int) == before,
                ops@[before.len() as int] == (LcmhSingleQubitCliffordOperation { operation: OP_NODE, node }),
                forall|q: int|
                    0 <= q < t ==> #[trigger] ops@[before.len() + 1 + q] == (LcmhSingleQubitCliffordOperation {
                        operation: OP_NEIGHBOUR,
                        node: nbs@[q],
                    }),
        {
            ops.push(LcmhSingleQubitCliffordOperation { operation: OP_NEIGHBOUR, node: nbs[t] });
        }
        let ghost added = ops@.skip(before.len() + 1int);
        assert(ops@.len() == before.len() + 1 + k);
        assert(forall|q: int| 0 <= q < k ==> #[trigger] added[q] == ops@[before.len() + 1 + q]);
        assert(added.map_values(|o: LcmhSingleQubitCliffordOperation| o.node) =~= nbs@);
        proof {
            lemma_records_move_operations(before, ops@, graph@, node);
        }
    } else {
        graph.local_complementation(node);
    }
}

} // verus!
