use crate::graph::{adjacency_wf, loop_free, with_edge, Graph};
use vstd::prelude::*;

verus! {

/// The number of bits in one chunk of a matrix row.
pub const CHUNK_SIZE: usize = 64;

/// The number of 64-bit chunks that hold a row of `n` bits.
pub open spec fn num_chunks(n: nat) -> nat {
    (n + 63) / 64
}

/// Each of the `n` rows holds exactly the chunks for `n` bits.
pub open spec fn matrix_shape(rows: Seq<Seq<u64>>, n: nat) -> bool {
    &&& rows.len() == n
    &&& forall|i: int| 0 <= i < n ==> (#[trigger] rows[i]).len() == num_chunks(n)
}

/// Bit `j` of row `i`: bit `j % 64` of chunk `j / 64`.
pub open spec fn matrix_bit(rows: Seq<Seq<u64>>, i: int, j: int) -> bool {
    (rows[i][j / 64] >> ((j % 64) as u64)) & 1u64 == 1u64
}

/// The bit for the pair `{x, y}` in the upper triangle of the matrix.
pub open spec fn upper_bit(rows: Seq<Seq<u64>>, x: int, y: int) -> bool {
    if x < y {
        matrix_bit(rows, x, y)
    } else {
        matrix_bit(rows, y, x)
    }
}

/// The graph that an adjacency matrix of `n` nodes encodes: distinct nodes `x` and `y`
/// are joined when the bit for their pair in the upper triangle is set.
pub open spec fn decoded_adjacency(rows: Seq<Seq<u64>>, n: nat) -> Seq<Set<usize>> {
    Seq::new(n, |x: int| Set::new(|y: usize| y < n && x != y as int && upper_bit(rows, x, y as int)))
}

/// The rows of a matrix as sequences of chunks.
pub open spec fn rows_of(slices: Seq<Vec<u64>>) -> Seq<Seq<u64>> {
    slices.map_values(|r: Vec<u64>| r@)
}

/// Whether bit `j` of row `i` is set once the graph `adj` has been written over the
/// matrix `buffer`: it was set already, or `j` is a neighbour of `i`.
pub open spec fn encoded_bit(buffer: Seq<Seq<u64>>, adj: Seq<Set<usize>>, i: int, j: int) -> bool {
    matrix_bit(buffer, i, j) || (j < adj.len() && adj[i].contains(j as usize))
}

/// Every chunk of every row is zero.
pub open spec fn zero_matrix(rows: Seq<Seq<u64>>, n: nat) -> bool {
    &&& matrix_shape(rows, n)
    &&& forall|i: int, c: int| 0 <= i < n && 0 <= c < num_chunks(n) ==> #[trigger] rows[i][c] == 0u64
}

/// `enc` holds, bit for bit, what writing the graph `adj` over `buffer` gives.
pub open spec fn encodes(enc: Seq<Seq<u64>>, buffer: Seq<Seq<u64>>, adj: Seq<Set<usize>>) -> bool {
    forall|i: int, j: int|
        0 <= i < adj.len() && 0 <= j < 64 * num_chunks(adj.len()) ==> #[trigger] matrix_bit(enc, i, j)
            == encoded_bit(buffer, adj, i, j)
}

/// The matrix of `n` nodes is symmetric, has a clear diagonal and clear bits past column
/// `n`: it is the adjacency matrix of a graph without self-loops.
pub open spec fn adjacency_matrix(rows: Seq<Seq<u64>>, n: nat) -> bool {
    &&& matrix_shape(rows, n)
    &&& forall|i: int, j: int| 0 <= i < n && 0 <= j < n ==> #[trigger] matrix_bit(rows, i, j) == matrix_bit(rows, j, i)
    &&& forall|i: int| 0 <= i < n ==> !#[trigger] matrix_bit(rows, i, i)
    &&& forall|i: int, j: int| 0 <= i < n && n <= j < 64 * num_chunks(n) ==> !#[trigger] matrix_bit(rows, i, j)
}

/// The decoded graph has the matrix's `n` nodes; two nodes `i < j` are joined exactly when
/// bit `j % 64` of chunk `j / 64` of row `i` is set; every neighbour is another node of
/// the graph, and adjacency is symmetric.
pub proof fn lemma_decoded_adjacency_reads_upper_bits(rows: Seq<Seq<u64>>, n: nat)
    ensures
        decoded_adjacency(rows, n).len() == n,
        forall|i: usize, j: usize|
            i < j < n ==> (#[trigger] decoded_adjacency(rows, n)[i as int].contains(j) <==> (rows[i as int][(j / 64) as int]
                >> ((j % 64) as u64)) & 1u64 == 1u64),
        forall|i: usize, y: usize|
            i < n && #[trigger] decoded_adjacency(rows, n)[i as int].contains(y) ==> y < n && y != i
                && decoded_adjacency(rows, n)[y as int].contains(i),
{
}

/// A zero chunk has no bit set.
proof fn lemma_zero_chunk_bits(k: u64)
    requires
        k < 64,
    ensures
        (0u64 >> k) & 1u64 != 1u64,
{
    assert((0u64 >> k) & 1u64 != 1u64) by (bit_vector)
        requires
            k < 64,
    ;
}

/// Writing a graph without self-loops into a zeroed matrix and reading it back gives the
/// same graph.
pub proof fn lemma_decode_after_encode(adj: Seq<Set<usize>>, buffer: Seq<Seq<u64>>, enc: Seq<Seq<u64>>)
    requires
        adjacency_wf(adj),
        loop_free(adj),
        adj.len() <= usize::MAX,
        zero_matrix(buffer, adj.len()),
        encodes(enc, buffer, adj),
    ensures
        decoded_adjacency(enc, adj.len()) == adj,
{
    let n = adj.len();
    let dec = decoded_adjacency(enc, n);
    assert forall|x: int| 0 <= x < n implies #[trigger] dec[x] == adj[x] by {
        assert forall|y: usize| dec[x].contains(y) == adj[x].contains(y) by {
            if y < n {
                lemma_zero_chunk_bits((y as int % 64) as u64);
                lemma_zero_chunk_bits((x % 64) as u64);
                assert(buffer[x][y as int / 64] == 0u64);
                assert(buffer[y as int][x / 64] == 0u64);
                assert(matrix_bit(enc, x, y as int) == encoded_bit(buffer, adj, x, y as int));
                assert(matrix_bit(enc, y as int, x) == encoded_bit(buffer, adj, y as int, x));
                if adj[y as int].contains(x as usize) {
                    assert(adj[x].contains(y));
                }
                if adj[x].contains(y) {
                    assert(adj[y as int].contains(x as usize));
                }
                if x == y as int {
                    assert(!adj[x].contains(x as usize));
                }
            } else {
                if adj[x].contains(y) {
                    assert(y < n);
                }
            }
        }
        assert(dec[x] =~= adj[x]);
    }
    assert(dec =~= adj);
}

/// Reading the graph out of an adjacency matrix and writing it into a zeroed matrix gives
/// back the same matrix, bit for bit.
pub proof fn lemma_encode_after_decode(rows: Seq<Seq<u64>>, n: nat, buffer: Seq<Seq<u64>>)
    requires
        adjacency_matrix(rows, n),
        zero_matrix(buffer, n),
        n <= usize::MAX,
    ensures
        forall|i: int, j: int|
            0 <= i < n && 0 <= j < 64 * num_chunks(n) ==> #[trigger] encoded_bit(buffer, decoded_adjacency(rows, n), i, j)
                == matrix_bit(rows, i, j),
{
    let dec = decoded_adjacency(rows, n);
    assert forall|i: int, j: int| 0 <= i < n && 0 <= j < 64 * num_chunks(n) implies #[trigger] encoded_bit(
        buffer,
        dec,
        i,
        j,
    ) == matrix_bit(rows, i, j) by {
        lemma_zero_chunk_bits((j % 64) as u64);
        assert(buffer[i][j / 64] == 0u64);
        if j < n {
            assert(matrix_bit(rows, i, j) == matrix_bit(rows, j, i));
            if i == j {
                assert(!matrix_bit(rows, i, i));
            }
        } else {
            assert(!matrix_bit(rows, i, j));
        }
    }
}

/// Whether the pair `a < b` comes before position `(i, j)` in row-major order.
spec fn pair_done(i: int, j: int, a: int, b: int) -> bool {
    a < i || (a == i && b < j)
}

/// The decoded graph restricted to the pairs that come before `(i, j)`.
spec fn decoded_prefix(rows: Seq<Seq<u64>>, n: nat, i: int, j: int) -> Seq<Set<usize>> {
    Seq::new(
        n,
        |x: int|
            Set::new(
                |y: usize|
                    y < n && x != y as int && upper_bit(rows, x, y as int) && if x < y {
                        pair_done(i, j, x, y as int)
                    } else {
                        pair_done(i, j, y as int, x)
                    },
            ),
    )
}

/// Testing a chunk against a one-bit mask reads that bit.
proof fn lemma_mask_reads_bit(chunk: u64, k: u64)
    requires
        k < 64,
    ensures
        (chunk & (1u64 << k) != 0) == ((chunk >> k) & 1u64 == 1u64),
{
    assert((chunk & (1u64 << k) != 0) == ((chunk >> k) & 1u64 == 1u64)) by (bit_vector)
        requires
            k < 64,
    ;
}

/// Setting bit `b` of a chunk sets that bit and keeps every other.
proof fn lemma_set_bit(chunk: u64, b: u64, k: u64)
    requires
        b < 64,
        k < 64,
    ensures
        ((chunk | (1u64 << b)) >> k) & 1u64 == if k == b { 1u64 } else { (chunk >> k) & 1u64 },
{
    assert(((chunk | (1u64 << b)) >> k) & 1u64 == if k == b { 1u64 } else { (chunk >> k) & 1u64 })
        by (bit_vector)
        requires
            b < 64,
            k < 64,
    ;
}

/// An adjacency matrix in the layout that Cabaliser uses: one row per node, each row
/// split into 64-bit chunks, bit `j % 64` of chunk `j / 64` of row `i` standing for the
/// pair of nodes `i` and `j`.
pub struct CabaliserGraph {
    n_qubits: usize,
    slices: Vec<Vec<u64>>,
}

impl View for CabaliserGraph {
    type V = Seq<Seq<u64>>;

    closed spec fn view(&self) -> Seq<Seq<u64>> {
        rows_of(self.slices@)
    }
}

impl CabaliserGraph {
    /// The number of nodes.
    pub closed spec fn spec_n_qubits(&self) -> nat {
        self.n_qubits as nat
    }

    /// The invariant: there are `n_qubits` rows, each of `n_qubits` bits.
    pub closed spec fn wf(&self) -> bool {
        matrix_shape(self@, self.n_qubits as nat)
    }

    /// Wraps the rows of an adjacency matrix of `n_qubits` nodes.
    pub fn new(n_qubits: usize, slices: Vec<Vec<u64>>) -> (c: CabaliserGraph)
        requires
            matrix_shape(rows_of(slices@), n_qubits as nat),
        ensures
            c.wf(),
            c.spec_n_qubits() == n_qubits,
            c@ == rows_of(slices@),
            c@.len() == slices@.len(),
            forall|i: int| 0 <= i < slices@.len() ==> #[trigger] c@[i] == slices@[i]@,
    {
        CabaliserGraph { n_qubits, slices }
    }

    /// The number of nodes.
    pub fn n_qubits(&self) -> (n: usize)
        ensures
            n == self.spec_n_qubits(),
    {
        self.n_qubits
    }

    /// Gives up the rows of the matrix.
    pub fn into_slices(self) -> (slices: Vec<Vec<u64>>)
        ensures
            rows_of(slices@) == self@,
            slices@.len() == self@.len(),
            forall|i: int| 0 <= i < slices@.len() ==> #[trigger] slices@[i]@ == self@[i],
    {
        self.slices
    }

    /// Builds the graph that the matrix encodes. Only the upper triangle is read: nodes
    /// `i < j` are joined when bit `j` of row `i` is set.
    pub fn to_graph(c_graph: CabaliserGraph) -> (graph: Graph)
        requires
            c_graph.wf(),
        ensures
            graph.wf(),
            graph@ == decoded_adjacency(c_graph@, c_graph.spec_n_qubits()),
            loop_free(graph@),
            graph@.len() == c_graph.spec_n_qubits(),
            forall|i: usize, j: usize|
                i < j < c_graph.spec_n_qubits() ==> (#[trigger] graph@[i as int].contains(j) <==> (c_graph@[i as int][(j
                    / 64) as int] >> ((j % 64) as u64)) & 1u64 == 1u64),
            forall|i: usize, y: usize|
                i < c_graph.spec_n_qubits() && #[trigger] graph@[i as int].contains(y) ==> y
                    < c_graph.spec_n_qubits() && y != i && graph@[y as int].contains(i),
    {
        proof {
            lemma_decoded_adjacency_reads_upper_bits(c_graph@, c_graph.spec_n_qubits());
        }
        let n = c_graph.n_qubits;
        let ghost rows = c_graph@;
        let mut graph = Graph::new(n);
        if n == 0 {
            assert(graph@ =~~= decoded_adjacency(rows, 0));
            return graph;
        }
        assert(graph@ =~~= decoded_prefix(rows, n as nat, 0, 0));
        for i in 0..(n - 1)
            invariant
                n == c_graph.n_qubits,
                n > 0,
                rows == c_graph@,
                matrix_shape(rows, n as nat),
                graph.wf(),
                graph@ == decoded_prefix(rows, n as nat, i as int, 0),
                loop_free(graph@),
        {
            assert(graph@ =~~= decoded_prefix(rows, n as nat, i as int, i + 1));
            for j in (i + 1)..n
                invariant
                    n == c_graph.n_qubits,
                    i < n - 1,
                    rows == c_graph@,
                    matrix_shape(rows, n as nat),
                    graph.wf(),
                    graph@ == decoded_prefix(rows, n as nat, i as int, j as int),
                    loop_free(graph@),
            {
                assert(rows[i as int] == c_graph.slices@[i as int]@);
                assert(rows[i as int].len() == num_chunks(n as nat));
                let chunk = c_graph.slices[i][j / CHUNK_SIZE];
                assert(chunk == rows[i as int][(j / 64) as int]);
                let shift = (j % CHUNK_SIZE) as u64;
                proof {
                    lemma_mask_reads_bit(chunk, shift);
                }
                if chunk & (1u64 << shift) != 0 {
                    graph.add_edge(i, j);
                    assert(graph@ =~~= decoded_prefix(rows, n as nat, i as int, j + 1));
                } else {
                    assert(graph@ =~~= decoded_prefix(rows, n as nat, i as int, j + 1));
                }
            }
            assert(graph@ =~~= decoded_prefix(rows, n as nat, i + 1, 0));
        }
        assert(graph@ =~~= decoded_adjacency(rows, n as nat));
        graph
    }

    /// Writes the graph into `slices_buffer`, one row per node: for every neighbour `j`
    /// of node `i`, bit `j` of row `i` is set. Bits that are set already stay set, so a
    /// buffer of zeros receives exactly the adjacency matrix of the graph.
    pub fn from_graph(graph: &Graph, slices_buffer: Vec<Vec<u64>>) -> (c: CabaliserGraph)
        requires
            graph.wf(),
            matrix_shape(rows_of(slices_buffer@), graph@.len()),
        ensures
            c.wf(),
            matrix_shape(c@, graph@.len()),
            c.spec_n_qubits() == graph@.len(),
            forall|i: int, j: int|
                0 <= i < graph@.len() && 0 <= j < 64 * num_chunks(graph@.len()) ==> #[trigger] matrix_bit(c@, i, j)
                    == encoded_bit(rows_of(slices_buffer@), graph@, i, j),
            c@.len() == graph@.len(),
            forall|i: int| 0 <= i < graph@.len() ==> (#[trigger] c@[i]).len() == (graph@.len() + 63) / 64,
            forall|i: int, j: int|
                0 <= i < graph@.len() && 0 <= j < 64 * ((graph@.len() + 63) / 64) ==> (#[trigger] ((
                c@[i][j / 64] >> ((j % 64) as u64)) & 1u64) == 1u64 <==> ((slices_buffer@[i]@[j / 64] >> ((j % 64) as u64))
                    & 1u64 == 1u64 || (j < graph@.len() && graph@[i].contains(j as usize)))),
    {
        let n = graph.num_nodes();
        let ghost adj = graph@;
        let ghost buffer = rows_of(slices_buffer@);
        let ghost width = 64 * num_chunks(n as nat);
        let mut slices = slices_buffer;
        for i in 0..n
            invariant
                n == adj.len(),
                adj == graph@,
                graph.wf(),
                adjacency_wf(adj),
                width == 64 * num_chunks(n as nat),
                matrix_shape(rows_of(slices@), n as nat),
                forall|r: int, j: int|
                    0 <= r < n && 0 <= j < width ==> #[trigger] matrix_bit(rows_of(slices@), r, j) == (
                    matrix_bit(buffer, r, j) || (r < i && j < n && adj[r].contains(j as usize))),
        {
            let nbs = graph.neighbour_list(i);
            let k = nbs.len();
            for t in 0..k
                invariant
                    n == adj.len(),
                    i < n,
                    k == nbs@.len(),
                    nbs@.to_set() == adj[i as int],
                    adjacency_wf(adj),
                    width == 64 * num_chunks(n as nat),
                    matrix_shape(rows_of(slices@), n as nat),
                    forall|r: int, j: int|
                        0 <= r < n && 0 <= j < width ==> #[trigger] matrix_bit(rows_of(slices@), r, j) == (
                        matrix_bit(buffer, r, j) || (r < i && j < n && adj[r].contains(j as usize)) || (r == i && j < n
                            && nbs@.take(t as int).contains(j as usize))),
            {
                let nb = nbs[t];
                assert(nbs@.to_set().contains(nb));
                assert(adj[i as int].contains(nb));
                assert(nb < n);
                let c = nb / CHUNK_SIZE;
                let b = (nb % CHUNK_SIZE) as u64;
                let ghost prev = rows_of(slices@);
                assert(prev[i as int] == slices@[i as int]@);
                let chunk = slices[i][c];
                slices[i][c] = chunk | (1u64 << b);
                let ghost cur = rows_of(slices@);
                assert(cur[i as int] == prev[i as int].update(c as int, chunk | (1u64 << b)));
                assert(forall|r: int| 0 <= r < n && r != i ==> cur[r] == prev[r]);
                assert(nbs@.take(t + 1) =~= nbs@.take(t as int).push(nb));
                assert forall|r: int, j: int|
                    0 <= r < n && 0 <= j < width implies #[trigger] matrix_bit(cur, r, j) == (
                    matrix_bit(buffer, r, j) || (r < i && j < n && adj[r].contains(j as usize)) || (r == i && j < n
                        && nbs@.take(t + 1).contains(j as usize))) by {
                    assert(matrix_bit(prev, r, j) == (matrix_bit(buffer, r, j) || (r < i && j < n && adj[r].contains(j as usize)) || (r == i && j < n
                            && nbs@.take(t as int).contains(j as usize))));
                    if r == i && j / 64 == c {
                        lemma_set_bit(chunk, b, (j % 64) as u64);
                        assert(prev[i as int][c as int] == chunk);
                        assert(cur[i as int][c as int] == chunk | (1u64 << b));
                        if j % 64 == b {
                            assert(j == nb);
                            assert(nbs@.take(t + 1)[t as int] == nb);
                        } else {
                            assert(j != nb);
                            if j < n {
                                assert(nbs@.take(t + 1).contains(j as usize) == nbs@.take(t as int).contains(j as usize));
                            }
                        }
                    } else {
                        assert(cur[r][j / 64] == prev[r][j / 64]);
                    }
                }
                assert(matrix_shape(cur, n as nat));
            }
            assert(nbs@.take(k as int) =~= nbs@);
        }
        let c = CabaliserGraph { n_qubits: n, slices };
        assert forall|i: int, j: int|
            0 <= i < n && 0 <= j < 64 * ((n + 63) / 64) implies (#[trigger] ((c@[i][j / 64] >> ((j % 64) as u64))
            & 1u64) == 1u64 <==> ((slices_buffer@[i]@[j / 64] >> ((j % 64) as u64)) & 1u64 == 1u64 || (j < n
            && adj[i].contains(j as usize)))) by {
            assert(matrix_bit(rows_of(c.slices@), i, j) == (matrix_bit(buffer, i, j) || (i < n && j < n && adj[i].contains(j as usize))));
            assert(buffer[i] == slices_buffer@[i]@);
        }
        c
    }
}

} // verus!
