use lcmh::cabaliser::CabaliserGraph;
use lcmh::graph::Graph;
use lcmh::search::{
    finish_move, opt_seed, propose_move, propose_random_move, seeded_generator,
    LcmhSingleQubitCliffordOperation, OP_NEIGHBOUR, OP_NODE,
};
use std::collections::HashSet;

fn set(items: &[usize]) -> HashSet<usize> {
    items.iter().copied().collect()
}

/// The graph of the search test in the original crate: five nodes, seven edges.
fn pentagon_graph() -> Graph {
    let mut graph = Graph::new(5);
    graph.add_edge(0, 1);
    graph.add_edge(0, 3);
    graph.add_edge(0, 4);
    graph.add_edge(1, 2);
    graph.add_edge(1, 3);
    graph.add_edge(2, 4);
    graph.add_edge(3, 4);
    graph
}

fn adjacency(graph: &Graph) -> Vec<HashSet<usize>> {
    graph.get_data().clone()
}

fn zero_rows(n: usize) -> Vec<Vec<u64>> {
    vec![vec![0u64; (n + 63) / 64]; n]
}

#[test]
fn test() {}

#[test]
fn new_graph_has_no_edges() {
    let graph = Graph::new(4);
    assert_eq!(graph.num_nodes(), 4);
    assert_eq!(graph.num_edges(), 0);
    assert_eq!(graph.max_degree(), 0);
    for node in 0..4 {
        assert!(graph.get_neighbours(node).unwrap().is_empty());
    }
    assert!(graph.get_neighbours(4).is_none());
    assert_eq!(Graph::new(0).max_degree(), 0);
}

#[test]
fn add_and_remove_edges() {
    let mut graph = Graph::new(3);
    graph.add_edge(0, 2);
    assert_eq!(graph.get_neighbours(0).unwrap(), &set(&[2]));
    assert_eq!(graph.get_neighbours(2).unwrap(), &set(&[0]));
    assert_eq!(graph.num_edges(), 1);
    graph.add_edge(2, 0);
    assert_eq!(graph.num_edges(), 1);
    graph.add_edge(1, 2);
    assert_eq!(graph.max_degree(), 2);
    assert_eq!(graph.num_edges(), 2);
    graph.remove_edge(0, 2);
    assert_eq!(graph.get_neighbours(0).unwrap(), &set(&[]));
    assert_eq!(graph.get_neighbours(2).unwrap(), &set(&[1]));
    assert_eq!(graph.num_edges(), 1);
    graph.remove_edge(0, 1);
    assert_eq!(graph.num_edges(), 1);
}

#[test]
fn remove_undoes_add() {
    let mut graph = pentagon_graph();
    let before = adjacency(&graph);
    graph.add_edge(2, 3);
    assert_ne!(adjacency(&graph), before);
    graph.remove_edge(2, 3);
    assert_eq!(adjacency(&graph), before);
}

#[test]
fn unchecked_edges_allow_self_loops() {
    let mut graph = Graph::new(2);
    graph.add_edge_unchecked(1, 1);
    assert_eq!(graph.get_neighbours(1).unwrap(), &set(&[1]));
    graph.add_edge_unchecked(0, 1);
    assert_eq!(graph.get_neighbours(1).unwrap(), &set(&[0, 1]));
    graph.remove_edge_unchecked(1, 1);
    assert_eq!(graph.get_neighbours(1).unwrap(), &set(&[0]));
}

#[test]
fn pentagon_degrees() {
    let graph = pentagon_graph();
    assert_eq!(graph.num_edges(), 7);
    assert_eq!(graph.max_degree(), 3);
    assert_eq!(graph.get_neighbours(0).unwrap(), &set(&[1, 3, 4]));
    assert_eq!(graph.get_neighbours(2).unwrap(), &set(&[1, 4]));
}

#[test]
fn local_complementation_of_a_star_gives_a_complete_graph() {
    let mut graph = Graph::new(4);
    graph.add_edge(0, 1);
    graph.add_edge(0, 2);
    graph.add_edge(0, 3);
    graph.local_complementation(0);
    assert_eq!(graph.num_edges(), 6);
    assert_eq!(graph.get_neighbours(0).unwrap(), &set(&[1, 2, 3]));
    assert_eq!(graph.get_neighbours(1).unwrap(), &set(&[0, 2, 3]));
    assert_eq!(graph.get_neighbours(3).unwrap(), &set(&[0, 1, 2]));
    graph.local_complementation(0);
    assert_eq!(graph.num_edges(), 3);
    assert_eq!(graph.get_neighbours(1).unwrap(), &set(&[0]));
}

#[test]
fn local_complementation_toggles_only_the_neighbourhood() {
    let mut graph = pentagon_graph();
    // neighbours of 0 are 1, 3, 4; the pairs 1-3 and 3-4 are edges, 1-4 is not
    graph.local_complementation(0);
    assert_eq!(graph.get_neighbours(0).unwrap(), &set(&[1, 3, 4]));
    assert_eq!(graph.get_neighbours(1).unwrap(), &set(&[0, 2, 4]));
    assert_eq!(graph.get_neighbours(2).unwrap(), &set(&[1, 4]));
    assert_eq!(graph.get_neighbours(3).unwrap(), &set(&[0]));
    assert_eq!(graph.get_neighbours(4).unwrap(), &set(&[0, 1, 2]));
    assert_eq!(graph.num_edges(), 6);
}

#[test]
fn local_complementation_is_an_involution() {
    let mut graph = pentagon_graph();
    let before = adjacency(&graph);
    for node in 0..5 {
        graph.local_complementation(node);
        graph.local_complementation(node);
        assert_eq!(adjacency(&graph), before);
    }
}

#[test]
fn clone_keeps_the_edges() {
    let graph = pentagon_graph();
    let copy = graph.clone();
    assert_eq!(adjacency(&copy), adjacency(&graph));
}

#[test]
fn matrix_decodes_upper_triangle() {
    // three nodes; row 0 has bits 1 and 2; the bits of rows 1 and 2 lie on or below the
    // diagonal and are not read
    let rows = vec![vec![0b110u64], vec![0b001u64], vec![0b011u64]];
    let graph = CabaliserGraph::to_graph(CabaliserGraph::new(3, rows));
    assert_eq!(graph.num_nodes(), 3);
    assert_eq!(graph.get_neighbours(0).unwrap(), &set(&[1, 2]));
    assert_eq!(graph.get_neighbours(1).unwrap(), &set(&[0]));
    assert_eq!(graph.get_neighbours(2).unwrap(), &set(&[0]));
}

#[test]
fn matrix_of_no_nodes_gives_empty_graph() {
    let graph = CabaliserGraph::to_graph(CabaliserGraph::new(0, Vec::new()));
    assert_eq!(graph.num_nodes(), 0);
}

#[test]
fn matrix_across_chunks_decodes() {
    let n = 130;
    let mut rows = zero_rows(n);
    // edge 0-100: row 0, chunk 1, bit 36; edge 70-129: row 70, chunk 2, bit 1
    rows[0][1] = 1u64 << 36;
    rows[70][2] = 1u64 << 1;
    // edge 65-66: row 65, chunk 1, bit 2
    rows[65][1] = 1u64 << 2;
    let graph = CabaliserGraph::to_graph(CabaliserGraph::new(n, rows));
    assert_eq!(graph.num_edges(), 3);
    assert_eq!(graph.get_neighbours(100).unwrap(), &set(&[0]));
    assert_eq!(graph.get_neighbours(129).unwrap(), &set(&[70]));
    assert_eq!(graph.get_neighbours(66).unwrap(), &set(&[65]));
}

#[test]
fn graph_encodes_into_matrix() {
    let graph = pentagon_graph();
    let c = CabaliserGraph::from_graph(&graph, zero_rows(5));
    assert_eq!(c.n_qubits(), 5);
    let rows = c.into_slices();
    assert_eq!(rows, vec![vec![0b11010u64], vec![0b01101u64], vec![0b10010u64], vec![0b10011u64], vec![0b01101u64]]);
}

#[test]
fn encoding_keeps_bits_already_set() {
    let mut graph = Graph::new(2);
    graph.add_edge(0, 1);
    let mut buffer = zero_rows(2);
    buffer[1][0] = 1u64 << 40;
    let rows = CabaliserGraph::from_graph(&graph, buffer).into_slices();
    assert_eq!(rows, vec![vec![0b10u64], vec![(1u64 << 40) | 0b01u64]]);
}

#[test]
fn matrix_round_trip() {
    let n = 100;
    let mut graph = Graph::new(n);
    for i in 0..n {
        graph.add_edge(i, (i * 7 + 3) % n);
        graph.add_edge(i, (i + 64) % n);
    }
    // the generated pairs above include no self-loops: 7i+3 = i and i+64 = i have no
    // solution modulo 100
    let encoded = CabaliserGraph::from_graph(&graph, zero_rows(n));
    let rows = encoded.into_slices();
    let decoded = CabaliserGraph::to_graph(CabaliserGraph::new(n, rows.clone()));
    assert_eq!(adjacency(&decoded), adjacency(&graph));
    let again = CabaliserGraph::from_graph(&decoded, zero_rows(n)).into_slices();
    assert_eq!(again, rows);
}

#[test]
fn seed_choice() {
    assert_eq!(opt_seed(true, 5), None);
    assert_eq!(opt_seed(false, 5), Some(5));
    assert!(seeded_generator(None).is_none());
    assert!(seeded_generator(Some(7)).is_some());
}

#[test]
fn proposal_counts_operations() {
    let mut graph = pentagon_graph();
    let num_ops = propose_move(&mut graph, 0, 10);
    assert_eq!(num_ops, 14);
    assert_eq!(graph.get_neighbours(3).unwrap(), &set(&[0]));
}

#[test]
fn accepted_move_records_operations() {
    let mut graph = pentagon_graph();
    let mut ops = vec![LcmhSingleQubitCliffordOperation { operation: OP_NODE, node: 4 }];
    let num_ops = propose_move(&mut graph, 2, ops.len());
    let after_move = adjacency(&graph);
    finish_move(&mut graph, &mut ops, 2, true);
    assert_eq!(adjacency(&graph), after_move);
    assert_eq!(ops.len(), num_ops);
    assert_eq!(ops[1], LcmhSingleQubitCliffordOperation { operation: OP_NODE, node: 2 });
    let neighbours: HashSet<usize> = ops[2..].iter().map(|o| o.node).collect();
    assert_eq!(neighbours, set(&[1, 4]));
    assert!(ops[2..].iter().all(|o| o.operation == OP_NEIGHBOUR));
    assert_eq!(OP_NODE, 0x26);
    assert_eq!(OP_NEIGHBOUR, 0x34);
}

#[test]
fn rejected_move_restores_graph() {
    let mut graph = pentagon_graph();
    let before = adjacency(&graph);
    let mut ops = Vec::new();
    propose_move(&mut graph, 1, 0);
    assert_ne!(adjacency(&graph), before);
    finish_move(&mut graph, &mut ops, 1, false);
    assert_eq!(adjacency(&graph), before);
    assert!(ops.is_empty());
}

#[test]
fn random_moves_stay_in_the_graph() {
    let mut graph = pentagon_graph();
    let mut rng = seeded_generator(Some(42)).unwrap();
    let mut ops = Vec::new();
    for step in 0..50 {
        let before = adjacency(&graph);
        let proposal = propose_random_move(&mut graph, &mut rng, ops.len());
        assert!(proposal.node < 5);
        assert_eq!(proposal.num_ops, ops.len() + before[proposal.node].len() + 1);
        let accept = step % 3 == 0;
        finish_move(&mut graph, &mut ops, proposal.node, accept);
        if accept {
            assert_eq!(ops.len(), proposal.num_ops);
        } else {
            assert_eq!(adjacency(&graph), before);
        }
        for node in 0..5 {
            assert!(!graph.get_neighbours(node).unwrap().contains(&node));
            for &other in graph.get_neighbours(node).unwrap() {
                assert!(graph.get_neighbours(other).unwrap().contains(&node));
            }
        }
    }
}

#[test]
fn same_seed_gives_same_moves() {
    let mut a = seeded_generator(Some(3)).unwrap();
    let mut b = seeded_generator(Some(3)).unwrap();
    let mut ga = pentagon_graph();
    let mut gb = pentagon_graph();
    for _ in 0..20 {
        let pa = propose_random_move(&mut ga, &mut a, 0);
        let pb = propose_random_move(&mut gb, &mut b, 0);
        assert_eq!(pa.node, pb.node);
    }
}

#[test]
fn edge_count_steps_by_one() {
    let mut graph = pentagon_graph();
    graph.add_edge(0, 2);
    assert_eq!(graph.num_edges(), 8);
    graph.add_edge(0, 2);
    assert_eq!(graph.num_edges(), 8);
    graph.remove_edge(0, 2);
    assert_eq!(graph.num_edges(), 7);
    graph.remove_edge(0, 2);
    assert_eq!(graph.num_edges(), 7);
    assert_eq!(graph.num_nodes(), 5);
    assert_eq!(graph.get_data().len(), 5);
}

#[test]
fn graph_prints() {
    let graph = pentagon_graph();
    assert!(format!("{:?}", graph).starts_with("Graph"));
}
