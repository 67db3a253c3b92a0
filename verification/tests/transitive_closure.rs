use std::collections::HashMap;
use std::collections::HashSet;
use std::iter::FromIterator;

use graph_stuff::list_graph::graph::{Directed, Graph, Undirected};
use graph_stuff::mtx_graph::graph::{Graph as MtxGraph, GraphIdx, Weighted};
use graph_stuff::transitive_closure::bfs::{bfs_compute_closure_mtx, bfs_compute_closure_of_matrix};
use graph_stuff::transitive_closure::mtx::TransitiveClosureMtx;
use graph_stuff::transitive_closure::purdoms::{
    adjacency_list, expand, gather_sccs, propagate, purdoms, purdoms_of_matrix, replace_sccs,
    representatives, topo_sort,
};
use graph_stuff::transitive_closure::tarjan::Tarjan;

#[test]
fn basic_2x2() {
    // A two way 2-node graph
    //
    // (a) <-> (b)
    //
    //   a b
    // a 1 1
    // b 1 1
    //
    let mut g = Graph::<(), Directed>::new();
    let a = g.add_node(());
    let b = g.add_node(());
    g.add_edge(a, b, 1);
    g.add_edge(b, a, 1);
    let mtx = bfs_compute_closure_mtx(&g);
    let exp = TransitiveClosureMtx::from(vec![vec![true, true], vec![true, true]]);
    assert_eq!(exp, mtx);
}

#[test]
fn one_way_2x2() {
    // A one way 2-node graph
    //
    // (a) -> (b)
    //
    //   a b
    // a 1 1
    // b 0 1
    //
    let mut g = Graph::<(), Directed>::new();
    let a = g.add_node(());
    let b = g.add_node(());
    g.add_edge(a, b, 1);
    let mtx = bfs_compute_closure_mtx(&g);
    let exp = TransitiveClosureMtx::from(vec![vec![true, true], vec![false, true]]);
    assert_eq!(exp, mtx);
}

#[test]
fn bigger() {
    // graph edges:
    //   a b c d
    // a 0 1 1 0
    // b 0 0 1 0
    // c 1 0 0 1
    // d 0 0 0 0
    let mut g = Graph::<(), Directed>::new();
    let a = g.add_node(());
    let b = g.add_node(());
    let c = g.add_node(());
    let d = g.add_node(());
    g.add_edge(a, b, 1);
    g.add_edge(a, c, 1);
    g.add_edge(b, c, 1);
    g.add_edge(c, a, 1);
    g.add_edge(c, d, 1);
    let mtx = bfs_compute_closure_mtx(&g);
    let exp = TransitiveClosureMtx::from(vec![
        vec![true, true, true, true],
        vec![true, true, true, true],
        vec![true, true, true, true],
        vec![false, false, false, true],
    ]);
    assert_eq!(exp, mtx);
}

#[test]
fn from_len_is_square_and_false() {
    let m = TransitiveClosureMtx::from_len(3);
    assert_eq!(m.len(), 3);
    for i in 0..3 {
        assert_eq!(m.row(i), &vec![false, false, false]);
    }
    let mut m = m;
    m.set(1, 2, true);
    assert!(m.get(1, 2));
    assert!(!m.get(2, 1));
    assert_eq!(TransitiveClosureMtx::from_len(0), TransitiveClosureMtx::default());
}

#[test]
fn tarjan_base() {
    let mut g = Graph::<(), Directed>::new();
    let a = g.add_node(());
    let b = g.add_node(());
    let c = g.add_node(());
    let d = g.add_node(());
    let e = g.add_node(());
    g.add_edge(b, a, 1);
    g.add_edge(a, c, 1);
    g.add_edge(c, b, 1);
    g.add_edge(a, d, 1);
    g.add_edge(d, e, 1);
    let r = Tarjan::new(&g).sccs();
    let num = HashSet::<&usize>::from_iter(r.iter()).len();
    assert_eq!(num, 3);
}

#[test]
fn tarjan_labels_are_the_discovery_index_of_the_root() {
    let mut g = Graph::<(), Directed>::new();
    let a = g.add_node(());
    let b = g.add_node(());
    let c = g.add_node(());
    let d = g.add_node(());
    let e = g.add_node(());
    g.add_edge(b, a, 1);
    g.add_edge(a, c, 1);
    g.add_edge(c, b, 1);
    g.add_edge(a, d, 1);
    g.add_edge(d, e, 1);
    let r = Tarjan::new(&g).sccs();
    assert_eq!(r, vec![1, 1, 1, 4, 5]);
}

#[test]
fn tarjan_on_a_long_chain_needs_no_deep_call_stack() {
    let n = 200_000;
    let mut g = Graph::<(), Directed>::new();
    for _ in 0..n {
        g.add_node(());
    }
    for i in 0..n - 1 {
        g.add_edge(i, i + 1, 1);
    }
    g.add_edge(n - 1, n / 2, 1);
    let r = Tarjan::new(&g).sccs();
    assert_eq!(r.len(), n);
    for i in n / 2..n {
        assert_eq!(r[i], r[n / 2]);
    }
    for i in 0..n / 2 {
        assert_ne!(r[i], r[i + 1]);
    }
}

#[test]
fn gather() {
    let sccs = vec![0, 0, 2, 2, 2, 5, 0];
    let exp = HashMap::from_iter([(0, vec![1, 6]), (2, vec![3, 4])]);
    assert_eq!(exp, gather_sccs(&sccs));
}

#[test]
fn topo() {
    let mut g = Graph::<(), Directed>::new();
    let a = g.add_node(());
    let b = g.add_node(());
    let c = g.add_node(());
    let d = g.add_node(());
    let e = g.add_node(());
    let f = g.add_node(());
    g.add_edge(c, d, 1);
    g.add_edge(d, b, 1);
    g.add_edge(e, a, 1);
    g.add_edge(e, b, 1);
    g.add_edge(f, a, 1);
    g.add_edge(f, c, 1);
    let topo = topo_sort(&g);
    assert_eq!(topo, vec![0, 1, 3, 2, 4, 5]);
}

fn two_node_double_edge() -> Graph<(), Directed> {
    let mut g = Graph::<(), Directed>::new();
    let a = g.add_node(());
    let b = g.add_node(());
    g.add_edge(a, b, 1);
    g.add_edge(a, b, 1);
    g
}

fn four_node_cycle() -> Graph<(), Directed> {
    let mut g = Graph::<(), Directed>::new();
    let a = g.add_node(());
    let b = g.add_node(());
    let c = g.add_node(());
    let d = g.add_node(());
    g.add_edge(a, b, 1);
    g.add_edge(a, c, 1);
    g.add_edge(b, c, 1);
    g.add_edge(c, a, 1);
    g.add_edge(c, d, 1);
    g
}

#[test]
fn closure_of_a_doubled_edge_by_traversal() {
    let g = two_node_double_edge();
    let exp = TransitiveClosureMtx::from(vec![vec![true, true], vec![false, true]]);
    assert_eq!(exp, bfs_compute_closure_mtx(&g));
}

#[test]
fn closure_of_a_doubled_edge_by_condensation() {
    let mut g = two_node_double_edge();
    let exp = TransitiveClosureMtx::from(vec![vec![true, true], vec![false, true]]);
    assert_eq!(exp, purdoms(&mut g));
}

#[test]
fn closure_of_a_graph_with_a_cycle_by_condensation() {
    let mut g = four_node_cycle();
    let exp = TransitiveClosureMtx::from(vec![
        vec![true, true, true, true],
        vec![true, true, true, true],
        vec![true, true, true, true],
        vec![false, false, false, true],
    ]);
    assert_eq!(exp, purdoms(&mut g));
}

#[test]
fn purdoms_leaves_the_graph_condensed() {
    let mut g = four_node_cycle();
    purdoms(&mut g);
    assert_eq!(g.len(), 4);
    assert_eq!(g.neighbors(0), vec![3]);
    assert_eq!(g.neighbors(1), Vec::<usize>::new());
    assert_eq!(g.neighbors(2), Vec::<usize>::new());
    assert_eq!(g.neighbors(3), Vec::<usize>::new());
}

#[test]
fn tarjan_scenario_has_three_components() {
    let mut g = Graph::<(), Directed>::new();
    let a = g.add_node(());
    let b = g.add_node(());
    let c = g.add_node(());
    let d = g.add_node(());
    let e = g.add_node(());
    g.add_edge(b, a, 1);
    g.add_edge(a, c, 1);
    g.add_edge(c, b, 1);
    g.add_edge(a, d, 1);
    g.add_edge(d, e, 1);
    let r = Tarjan::new(&g).sccs();
    assert_eq!(r[a], r[b]);
    assert_eq!(r[b], r[c]);
    assert_ne!(r[a], r[d]);
    assert_ne!(r[a], r[e]);
    assert_ne!(r[d], r[e]);
}

#[test]
fn representatives_are_the_first_nodes_with_a_label() {
    assert_eq!(representatives(&[1, 1, 1, 4, 5]), vec![0, 0, 0, 3, 4]);
    assert_eq!(representatives(&[3, 2, 3, 2, 1]), vec![0, 1, 0, 1, 4]);
    assert_eq!(representatives(&[]), Vec::<usize>::new());
}

#[test]
fn replace_sccs_redirects_edges_and_drops_loops() {
    let mut g = Graph::<char, Directed, u32>::new();
    let a = g.add_node('a');
    let b = g.add_node('b');
    let c = g.add_node('c');
    g.add_edge(a, b, 1);
    g.add_edge(b, a, 2);
    g.add_edge(b, c, 3);
    g.add_edge(c, c, 4);
    replace_sccs(&mut g, &[0, 0, 2]);
    assert_eq!(g.len(), 3);
    assert_eq!(g.neighbors(a), vec![c]);
    assert_eq!(g.edges(a)[0].weight, 3);
    assert_eq!(g.neighbors(b), Vec::<usize>::new());
    assert_eq!(g.neighbors(c), Vec::<usize>::new());
    assert_eq!(g.node(b).data, 'b');
}

#[test]
fn propagate_follows_the_order() {
    let mut g = Graph::<(), Directed>::new();
    let a = g.add_node(());
    let b = g.add_node(());
    let c = g.add_node(());
    g.add_edge(a, b, 1);
    g.add_edge(b, c, 1);
    let topo = topo_sort(&g);
    assert_eq!(topo, vec![2, 1, 0]);
    let exp = TransitiveClosureMtx::from(vec![
        vec![true, true, true],
        vec![false, true, true],
        vec![false, false, true],
    ]);
    assert_eq!(exp, propagate(&g, &topo));
}

#[test]
fn expand_copies_the_rows_of_the_representatives() {
    let cm = TransitiveClosureMtx::from(vec![
        vec![true, false, true],
        vec![false, false, false],
        vec![false, false, true],
    ]);
    let rep = vec![0, 0, 2];
    let groups = gather_sccs(&rep);
    let exp = TransitiveClosureMtx::from(vec![
        vec![true, true, true],
        vec![true, true, true],
        vec![false, false, true],
    ]);
    assert_eq!(exp, expand(&cm, &rep, &groups));
}

#[test]
fn closure_of_an_undirected_graph() {
    let mut g = Graph::<(), Undirected>::new();
    let a = g.add_node(());
    let b = g.add_node(());
    let c = g.add_node(());
    g.add_edge(a, b, 1);
    let exp = TransitiveClosureMtx::from(vec![
        vec![true, true, false],
        vec![true, true, false],
        vec![false, false, true],
    ]);
    assert_eq!(exp, bfs_compute_closure_mtx(&g));
    assert_eq!(exp, purdoms(&mut g));
    assert_eq!(g.neighbors(a), Vec::<usize>::new());
    assert_eq!(g.neighbors(c), Vec::<usize>::new());
}

#[test]
fn closure_of_the_empty_graph() {
    let mut g = Graph::<(), Directed>::new();
    assert_eq!(TransitiveClosureMtx::from_len(0), bfs_compute_closure_mtx(&g));
    assert_eq!(TransitiveClosureMtx::from_len(0), purdoms(&mut g));
}

#[test]
fn both_closures_agree_on_random_graphs() {
    let mut state: u64 = 0x2545_f491_4f6c_dd1d;
    let mut next = move |bound: u64| {
        state ^= state << 13;
        state ^= state >> 7;
        state ^= state << 17;
        state % bound
    };
    for size in 1..=50usize {
        for density in [1u64, 3, 8] {
            let mut g = Graph::<(), Directed>::new();
            for _ in 0..size {
                g.add_node(());
            }
            let edges = (size as u64 * density) / 2;
            for _ in 0..edges {
                let a = next(size as u64) as usize;
                let b = next(size as u64) as usize;
                g.add_edge(a, b, 1);
            }
            let by_traversal = bfs_compute_closure_mtx(&g);
            let by_condensation = purdoms(&mut g);
            assert_eq!(by_traversal, by_condensation);
        }
    }
}

fn matrix_with_a_cycle() -> MtxGraph<(), graph_stuff::mtx_graph::graph::Directed, Weighted> {
    let mut g = MtxGraph::<(), graph_stuff::mtx_graph::graph::Directed, Weighted>::default();
    let a = g.add_node(());
    let b = g.add_node(());
    let c = g.add_node(());
    let d = g.add_node(());
    g.add_edge(a, b, 2);
    g.add_edge(a, c, 3);
    g.add_edge(b, c, 4);
    g.add_edge(c, a, 5);
    g.add_edge(c, d, 6);
    g
}

#[test]
fn closures_of_a_matrix_graph() {
    let g = matrix_with_a_cycle();
    let exp = TransitiveClosureMtx::from(vec![
        vec![true, true, true, true],
        vec![true, true, true, true],
        vec![true, true, true, true],
        vec![false, false, false, true],
    ]);
    assert_eq!(exp, bfs_compute_closure_of_matrix(&g));
    assert_eq!(exp, purdoms_of_matrix(&g));
    assert!(g.has_edge(GraphIdx(2), GraphIdx(0)));
}

#[test]
fn adjacency_list_keeps_edges_and_weights() {
    let g = matrix_with_a_cycle();
    let list = adjacency_list(&g);
    assert_eq!(list.len(), 4);
    assert_eq!(list.neighbors(0), vec![1, 2]);
    assert_eq!(list.neighbors(2), vec![0, 3]);
    assert_eq!(list.neighbors(3), Vec::<usize>::new());
    assert_eq!(list.edges(0)[1].weight, 3);
    assert_eq!(list.edges(2)[1].weight, 6);
}

#[test]
fn topo_sort_on_a_long_chain_needs_no_deep_call_stack() {
    let n = 200_000;
    let mut g = Graph::<(), Directed>::new();
    for _ in 0..n {
        g.add_node(());
    }
    for i in 0..n - 1 {
        g.add_edge(i, i + 1, 1);
    }
    let topo = topo_sort(&g);
    assert_eq!(topo.len(), n);
    for (at, node) in topo.iter().enumerate() {
        assert_eq!(*node, n - 1 - at);
    }
}

#[test]
fn topo_sort_of_a_graph_with_a_cycle_lists_every_node_once() {
    let g = four_node_cycle();
    assert_eq!(topo_sort(&g), vec![3, 2, 1, 0]);
}

#[test]
fn replace_sccs_gathers_edges_node_by_node() {
    let mut g = Graph::<(), Directed, u32>::new();
    for _ in 0..5 {
        g.add_node(());
    }
    g.add_edge(0, 3, 10);
    g.add_edge(0, 1, 11);
    g.add_edge(0, 4, 12);
    g.add_edge(1, 4, 13);
    g.add_edge(1, 3, 14);
    g.add_edge(3, 0, 15);
    replace_sccs(&mut g, &[0, 0, 2, 3, 3]);
    assert_eq!(g.neighbors(0), vec![3, 3, 3, 3]);
    let weights: Vec<u32> = g.edges(0).iter().map(|e| e.weight).collect();
    assert_eq!(weights, vec![12, 10, 14, 13]);
    assert_eq!(g.neighbors(1), Vec::<usize>::new());
    assert_eq!(g.neighbors(3), vec![0]);
    assert_eq!(g.neighbors(4), Vec::<usize>::new());
}
