use std::collections::HashSet;
use std::iter::FromIterator;

use graph_stuff::list_graph::graph::{Directed, Graph, Undirected};
use graph_stuff::list_graph::iter::BFS;

#[test]
fn graph_basic_directed() {
    let mut g = Graph::<(), Directed>::new();
    let a = g.add_node(());
    let b = g.add_node(());
    g.add_edge(a, b, 1);
    assert_eq!(g.edges(a).len(), 1);
    assert_eq!(g.edges(b).len(), 0);
    assert_eq!(g.nodes().len(), 2);
}

#[test]
fn graph_basic_undirected() {
    let mut g = Graph::<()>::new();
    let a = g.add_node(());
    let b = g.add_node(());
    g.add_edge(a, b, 1);
    assert_eq!(g.edges(a).len(), 1);
    assert_eq!(g.edges(b).len(), 1);
}

#[test]
fn iter_basic_directed() {
    let mut g = Graph::<(), Directed>::new();
    let a = g.add_node(());
    let b = g.add_node(());
    let c = g.add_node(());
    g.add_edge(a, b, 1);
    g.add_edge(a, c, 1);

    let mut bfs = BFS::new(&g, a);
    // fully explore
    while bfs.next().is_some() {}
    let exp: HashSet<usize> = HashSet::from_iter(vec![a, b, c]);
    assert_eq!(*bfs.visited(), exp);

    let mut bfs = BFS::new(&g, b);
    while bfs.next().is_some() {}
    let exp: HashSet<usize> = HashSet::from_iter(vec![b]);
    assert_eq!(*bfs.visited(), exp);

    let mut bfs = BFS::new(&g, c);
    while bfs.next().is_some() {}
    let exp: HashSet<usize> = HashSet::from_iter(vec![c]);
    assert_eq!(*bfs.visited(), exp);
}

#[test]
fn iter_basic_undirected() {
    let mut g = Graph::<()>::new();
    let a = g.add_node(());
    let b = g.add_node(());
    let c = g.add_node(());
    g.add_edge(a, b, 1);
    g.add_edge(a, c, 1);

    let mut bfs = BFS::new(&g, a);
    while bfs.next().is_some() {}
    let exp: HashSet<usize> = HashSet::from_iter(vec![a, b, c]);
    assert_eq!(*bfs.visited(), exp);

    let mut bfs = BFS::new(&g, b);
    while bfs.next().is_some() {}
    let exp: HashSet<usize> = HashSet::from_iter(vec![a, b, c]);
    assert_eq!(*bfs.visited(), exp);

    let mut bfs = BFS::new(&g, c);
    while bfs.next().is_some() {}
    let exp: HashSet<usize> = HashSet::from_iter(vec![a, b, c]);
    assert_eq!(*bfs.visited(), exp);
}

#[test]
fn add_node_issues_indices_in_order() {
    let mut g = Graph::<u8, Directed, u32>::new();
    assert_eq!(g.len(), 0);
    assert_eq!(g.add_node(7), 0);
    assert_eq!(g.add_node(8), 1);
    assert_eq!(g.add_node(9), 2);
    assert_eq!(g.len(), 3);
    assert_eq!(g.node(1).data, 8);
    assert_eq!(g.nodes()[2].data, 9);
}

#[test]
fn directed_edges_keep_insertion_order_and_duplicates() {
    let mut g = Graph::<(), Directed, u32>::new();
    let a = g.add_node(());
    let b = g.add_node(());
    let c = g.add_node(());
    g.add_edge(a, c, 5);
    g.add_edge(a, b, 6);
    g.add_edge(a, c, 7);
    assert_eq!(g.neighbors(a), vec![c, b, c]);
    assert_eq!(g.edges(a)[0].weight, 5);
    assert_eq!(g.edges(a)[1].weight, 6);
    assert_eq!(g.edges(a)[2].weight, 7);
    assert_eq!(g.neighbors(b), Vec::<usize>::new());
}

#[test]
fn undirected_edge_is_stored_both_ways_with_one_weight() {
    let mut g = Graph::<(), Undirected, u32>::new();
    let a = g.add_node(());
    let b = g.add_node(());
    g.add_edge(a, b, 9);
    assert_eq!(g.neighbors(a), vec![b]);
    assert_eq!(g.neighbors(b), vec![a]);
    assert_eq!(g.edges(a)[0].weight, 9);
    assert_eq!(g.edges(b)[0].weight, 9);
}

#[test]
fn undirected_self_edge_is_recorded_twice() {
    let mut g = Graph::<(), Undirected, u32>::new();
    let a = g.add_node(());
    g.add_edge(a, a, 3);
    assert_eq!(g.neighbors(a), vec![a, a]);
}

#[test]
fn bfs_yields_in_discovery_order() {
    let mut g = Graph::<(), Directed>::new();
    let a = g.add_node(());
    let b = g.add_node(());
    let c = g.add_node(());
    let d = g.add_node(());
    let e = g.add_node(());
    g.add_edge(a, c, 1);
    g.add_edge(a, b, 1);
    g.add_edge(c, d, 1);
    g.add_edge(b, d, 1);
    g.add_edge(d, a, 1);
    let mut bfs = g.bfs(a);
    let mut order = Vec::new();
    while let Some(x) = bfs.next() {
        order.push(x);
    }
    assert_eq!(order, vec![a, c, b, d]);
    assert!(!bfs.visited().contains(&e));
    assert_eq!(bfs.next(), None);
}

#[test]
fn graph_is_indexed_by_node() {
    let mut g = Graph::<char, Directed, u32>::new();
    let a = g.add_node('a');
    let b = g.add_node('b');
    g.add_edge(a, b, 1);
    assert_eq!(g[a].data, 'a');
    assert_eq!(g[a].edges.len(), 1);
    assert_eq!(g[b].edges.len(), 0);
}
