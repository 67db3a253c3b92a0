use std::collections::HashSet;

use graph_stuff::mtx_graph::frontier::{Frontier, QueueNode};
use graph_stuff::mtx_graph::graph::{transpose, Directed, Graph, GraphIdx, Undirected, Weighted};
use graph_stuff::mtx_graph::iter::{BFS, DFS};

fn weighted_square() -> Graph<(), Directed, Weighted> {
    // a -1-> b -1-> d, a -5-> d, a -2-> c -1-> d, d -1-> e
    let mut g = Graph::<(), Directed, Weighted>::default();
    for _ in 0..6 {
        g.add_node(());
    }
    g.add_edge(GraphIdx(0), GraphIdx(1), 1);
    g.add_edge(GraphIdx(1), GraphIdx(3), 1);
    g.add_edge(GraphIdx(0), GraphIdx(3), 5);
    g.add_edge(GraphIdx(0), GraphIdx(2), 2);
    g.add_edge(GraphIdx(2), GraphIdx(3), 1);
    g.add_edge(GraphIdx(3), GraphIdx(4), 1);
    g
}

#[test]
fn dijkstra_records_the_cheapest_predecessors() {
    let g = weighted_square();
    let came_from = g.dijkstra(GraphIdx(0), None, None);
    assert_eq!(came_from.len(), 5);
    assert_eq!(came_from[&0], None);
    assert_eq!(came_from[&1], Some(GraphIdx(0)));
    assert_eq!(came_from[&2], Some(GraphIdx(0)));
    assert_eq!(came_from[&3], Some(GraphIdx(1)));
    assert_eq!(came_from[&4], Some(GraphIdx(3)));
    assert!(!came_from.contains_key(&5));
}

#[test]
fn dijkstra_leaves_out_what_lies_beyond_the_cutoff() {
    let g = weighted_square();
    let came_from = g.dijkstra(GraphIdx(0), Some(2), None);
    assert!(came_from.contains_key(&0));
    assert!(came_from.contains_key(&1));
    assert!(came_from.contains_key(&2));
    assert!(came_from.contains_key(&3));
    assert!(!came_from.contains_key(&4));
    let came_from = g.dijkstra(GraphIdx(0), Some(1), None);
    assert_eq!(came_from.len(), 2);
    assert!(!came_from.contains_key(&3));
    let came_from = g.dijkstra(GraphIdx(0), Some(-1), None);
    assert_eq!(came_from.len(), 1);
    assert_eq!(came_from[&0], None);
}

#[test]
fn dijkstra_stops_at_the_target() {
    let g = weighted_square();
    let came_from = g.dijkstra(GraphIdx(0), None, Some(GraphIdx(3)));
    assert_eq!(came_from[&3], Some(GraphIdx(1)));
    assert!(!came_from.contains_key(&4));
    let came_from = g.dijkstra(GraphIdx(0), None, Some(GraphIdx(0)));
    assert_eq!(came_from.len(), 1);
}

#[test]
fn dijkstra_ignores_weights_that_an_i32_cannot_count() {
    let mut g = Graph::<(), Directed, Weighted>::default();
    let a = g.add_node(());
    let b = g.add_node(());
    let c = g.add_node(());
    g.add_edge(a, b, usize::MAX);
    g.add_edge(a, c, i32::MAX as usize);
    g.add_edge(c, b, 1);
    let came_from = g.dijkstra(a, None, None);
    assert!(came_from.contains_key(&c.0));
    assert!(!came_from.contains_key(&b.0));
}

#[test]
fn path_to_walks_from_start_to_target() {
    let g = weighted_square();
    assert_eq!(g.path_to(GraphIdx(0), GraphIdx(4)), Some(vec![GraphIdx(1), GraphIdx(3), GraphIdx(4)]));
    assert_eq!(g.path_to(GraphIdx(0), GraphIdx(0)), Some(vec![]));
    assert_eq!(g.path_to(GraphIdx(0), GraphIdx(5)), None);
    assert_eq!(g.path_to(GraphIdx(4), GraphIdx(0)), None);
}

#[test]
fn path_to_costs_what_the_full_search_found() {
    let g = weighted_square();
    let came_from = g.dijkstra(GraphIdx(0), None, None);
    for target in 1..5usize {
        let mut full = 0;
        let mut at = target;
        while let Some(from) = came_from[&at] {
            full += g.edge_weight(from, GraphIdx(at));
            at = from.0;
        }
        let path = g.path_to(GraphIdx(0), GraphIdx(target)).unwrap();
        let mut cost = 0;
        let mut from = GraphIdx(0);
        for step in path {
            cost += g.edge_weight(from, step);
            from = step;
        }
        assert_eq!(cost, full);
    }
}

#[test]
fn empty() {
    let g = Graph::<()>::default();
    assert_eq!(g.nodes(), 0);
    assert!(g.cell_count() == 0);
}

#[test]
fn singleton() {
    let mut g = Graph::<()>::default();
    g.add_node(());
    assert_eq!(g.nodes(), 1);
    assert_eq!(g.cell_count(), 1);
}

#[test]
fn multi() {
    let mut g = Graph::<()>::default();
    g.add_node(());
    g.add_node(());
    g.add_node(());
    assert_eq!(g.nodes(), 3);
    assert_eq!(g.cell_count(), 9);
}

#[test]
fn has_edge() {
    let mut g = Graph::<()>::default();
    let i1 = g.add_node(());
    g.add_node(());
    let i3 = g.add_node(());
    g.add_edge(i1, i3);
    assert!(g.has_edge(i1, i3));
    assert!(g.has_edge(i3, i1));
}

#[test]
fn get_val() {
    let mut g = Graph::<&str>::default();
    let i = g.add_node("a");
    let v = g.get_node(i);
    assert_eq!(*v, "a");
}

#[test]
fn single_direction() {
    let mut g = Graph::<(), Directed>::default();
    let a = g.add_node(());
    let b = g.add_node(());
    g.add_edge(a, b);
    assert!(g.has_edge(a, b));
    assert!(!g.has_edge(b, a));
}

#[test]
fn edges() {
    let mut g = Graph::<()>::default();
    let a = g.add_node(());
    let b = g.add_node(());
    let c = g.add_node(());
    g.add_edge(a, c);
    g.add_edge(b, c);
    let exp_a = vec![0, 0, 1];
    let exp_b = vec![0, 0, 1];
    let exp_c = vec![1, 1, 0];
    assert_eq!(g.edges(a), &exp_a);
    assert_eq!(g.edges(b), &exp_b);
    assert_eq!(g.edges(c), &exp_c);
}

#[test]
fn transpose_g() {
    let mut g = Graph::<(), Directed>::default();
    let a = g.add_node(());
    let b = g.add_node(());
    let c = g.add_node(());
    g.add_edge(a, b);
    g.add_edge(c, b);
    let exp_a = vec![0, 1, 0];
    let exp_b = vec![0, 0, 0];
    let exp_c = vec![0, 1, 0];
    assert_eq!(g.edges(a), &exp_a);
    assert_eq!(g.edges(b), &exp_b);
    assert_eq!(g.edges(c), &exp_c);
    transpose(&mut g);
    let exp_a = vec![0, 0, 0];
    let exp_b = vec![1, 0, 1];
    let exp_c = vec![0, 0, 0];
    assert_eq!(g.edges(a), &exp_a);
    assert_eq!(g.edges(b), &exp_b);
    assert_eq!(g.edges(c), &exp_c);
}

#[test]
fn add_node_keeps_stored_cells_and_zeroes_new_ones() {
    let mut g = Graph::<u8, Directed, Weighted>::default();
    let a = g.add_node(1);
    let b = g.add_node(2);
    g.add_edge(a, b, 4);
    g.add_edge(b, a, 5);
    g.add_edge(b, b, 6);
    let c = g.add_node(3);
    assert_eq!(c, GraphIdx(2));
    assert_eq!(g.edges(a), &vec![0, 4, 0]);
    assert_eq!(g.edges(b), &vec![5, 6, 0]);
    assert_eq!(g.edges(c), &vec![0, 0, 0]);
    assert_eq!(g.cell_count(), 9);
}

#[test]
fn transpose_twice_restores_the_matrix() {
    let mut g = Graph::<(), Directed, Weighted>::default();
    let a = g.add_node(());
    let b = g.add_node(());
    let c = g.add_node(());
    g.add_edge(a, b, 2);
    g.add_edge(b, c, 3);
    g.add_edge(c, c, 4);
    transpose(&mut g);
    assert_eq!(g.edges(a), &vec![0, 0, 0]);
    assert_eq!(g.edges(b), &vec![2, 0, 0]);
    assert_eq!(g.edges(c), &vec![0, 3, 4]);
    transpose(&mut g);
    assert_eq!(g.edges(a), &vec![0, 2, 0]);
    assert_eq!(g.edges(b), &vec![0, 0, 3]);
    assert_eq!(g.edges(c), &vec![0, 0, 4]);
}

#[test]
fn transpose_leaves_an_undirected_graph_alone() {
    let mut g = Graph::<(), Undirected, Weighted>::default();
    let a = g.add_node(());
    let b = g.add_node(());
    let c = g.add_node(());
    g.add_edge(a, b, 2);
    g.add_edge(b, c, 3);
    transpose(&mut g);
    assert_eq!(g.edges(a), &vec![0, 2, 0]);
    assert_eq!(g.edges(b), &vec![2, 0, 3]);
    assert_eq!(g.edges(c), &vec![0, 3, 0]);
}

#[test]
fn undirected_weighted_edge_has_equal_weights() {
    let mut g = Graph::<(), Undirected, Weighted>::default();
    let a = g.add_node(());
    let b = g.add_node(());
    g.add_edge(a, b, 7);
    assert_eq!(g.has_edge(a, b), g.has_edge(b, a));
    assert_eq!(g.edge_weight(a, b), 7);
    assert_eq!(g.edge_weight(b, a), 7);
    g.add_edge(b, a, 9);
    assert_eq!(g.edge_weight(a, b), 9);
    assert_eq!(g.edge_weight(b, a), 9);
}

#[test]
fn weight_zero_means_no_edge() {
    let mut g = Graph::<(), Directed, Weighted>::default();
    let a = g.add_node(());
    let b = g.add_node(());
    g.add_edge(a, b, 0);
    assert!(!g.has_edge(a, b));
    assert_eq!(g.edge_weight(a, b), 0);
}

#[test]
fn get_idx_finds_the_last_node_with_a_value() {
    let mut g = Graph::<&str>::default();
    let a = g.add_node("a");
    let b = g.add_node("b");
    assert_eq!(g.get_idx(&"a"), Some(a));
    assert_eq!(g.get_idx(&"b"), Some(b));
    assert_eq!(g.get_idx(&"c"), None);
    let again = g.add_node("a");
    assert_eq!(g.get_idx(&"a"), Some(again));
    assert_eq!(g.nodes(), 3);
    assert_eq!(*g.get_node(a), "a");
}

#[test]
fn clone_copies_the_matrix() {
    let mut g = Graph::<u8, Directed>::default();
    let a = g.add_node(1);
    let b = g.add_node(2);
    g.add_edge(a, b);
    let h = g.clone();
    assert_eq!(h.nodes(), 2);
    assert!(h.has_edge(a, b));
    assert_eq!(h.get_idx(&2), Some(b));
}

fn diamond() -> Graph<(), Directed> {
    let mut g = Graph::<(), Directed>::default();
    let a = g.add_node(());
    let b = g.add_node(());
    let c = g.add_node(());
    let d = g.add_node(());
    g.add_node(());
    g.add_edge(a, b);
    g.add_edge(a, c);
    g.add_edge(b, d);
    g.add_edge(c, d);
    g.add_edge(d, a);
    g
}

#[test]
fn bfs_yields_oldest_first_in_ascending_order() {
    let g = diamond();
    let mut bfs = BFS::new(&g, GraphIdx(0));
    let mut order = Vec::new();
    while let Some(x) = bfs.next() {
        order.push(x.0);
    }
    assert_eq!(order, vec![0, 1, 2, 3]);
    assert_eq!(bfs.next(), None);
}

#[test]
fn dfs_yields_in_pre_order() {
    let g = diamond();
    let mut dfs = DFS::new(&g, GraphIdx(0));
    let mut order = Vec::new();
    while let Some(x) = dfs.next() {
        order.push(x.0);
    }
    assert_eq!(order, vec![0, 1, 3, 2]);
    assert_eq!(dfs.next(), None);
}

#[test]
fn dfs_comes_back_to_a_node_for_its_later_successors() {
    // 0 -> 1, 0 -> 2, 1 -> 2, 2 -> 3, 1 -> 4
    let mut g = Graph::<(), Directed>::default();
    for _ in 0..5 {
        g.add_node(());
    }
    g.add_edge(GraphIdx(0), GraphIdx(1));
    g.add_edge(GraphIdx(0), GraphIdx(2));
    g.add_edge(GraphIdx(1), GraphIdx(2));
    g.add_edge(GraphIdx(2), GraphIdx(3));
    g.add_edge(GraphIdx(1), GraphIdx(4));
    let mut dfs = g.dfs(GraphIdx(0));
    let mut order = Vec::new();
    while let Some(x) = dfs.next() {
        order.push(x.0);
    }
    assert_eq!(order, vec![0, 1, 2, 3, 4]);
}

#[test]
fn bfs_and_dfs_visit_the_same_set() {
    let g = diamond();
    for s in 0..5 {
        let mut bfs = g.bfs(GraphIdx(s));
        while bfs.next().is_some() {}
        let mut dfs = g.dfs(GraphIdx(s));
        while dfs.next().is_some() {}
        assert_eq!(bfs.visited(), dfs.visited());
    }
    let mut dfs = g.dfs(GraphIdx(4));
    while dfs.next().is_some() {}
    let only: HashSet<usize> = vec![4].into_iter().collect();
    assert_eq!(*dfs.visited(), only);
}

#[test]
fn graph_idx_arithmetic() {
    assert_eq!(GraphIdx(3) * 4, 12);
    assert_eq!(4 * GraphIdx(3), 12);
    assert_eq!(GraphIdx(3) + 4, 7);
    assert_eq!(4 + GraphIdx(3), 7);
}

#[test]
fn neighbors_come_in_ascending_order() {
    let g = weighted_square();
    assert_eq!(g.neighbors(GraphIdx(0)), vec![GraphIdx(1), GraphIdx(2), GraphIdx(3)]);
    assert_eq!(g.neighbors(GraphIdx(5)), Vec::<GraphIdx>::new());
}

#[test]
fn self_edge_is_an_edge_like_any_other() {
    let mut g = Graph::<(), Undirected, Weighted>::default();
    let a = g.add_node(());
    g.add_edge(a, a, 2);
    assert!(g.has_edge(a, a));
    assert_eq!(g.edges(a), &vec![2]);
    let mut bfs = g.bfs(a);
    assert_eq!(bfs.next(), Some(a));
    assert_eq!(bfs.next(), None);
}

#[test]
fn bfs_yields_nearer_nodes_first() {
    // 0 -> 4 -> 1 -> 3, 0 -> 2 -> 3
    let mut g = Graph::<(), Directed>::default();
    for _ in 0..5 {
        g.add_node(());
    }
    g.add_edge(GraphIdx(0), GraphIdx(4));
    g.add_edge(GraphIdx(4), GraphIdx(1));
    g.add_edge(GraphIdx(1), GraphIdx(3));
    g.add_edge(GraphIdx(0), GraphIdx(2));
    g.add_edge(GraphIdx(2), GraphIdx(3));
    let mut bfs = g.bfs(GraphIdx(0));
    let mut order = Vec::new();
    while let Some(x) = bfs.next() {
        order.push(x.0);
    }
    assert_eq!(order, vec![0, 2, 4, 3, 1]);
}

#[test]
fn frontier_hands_out_the_least_weight_first() {
    let mut f = Frontier::new();
    assert!(f.pop().is_none());
    let weights = [7, 3, 9, 3, 1, 8, 2, 6, 5, 4, 0, 9];
    for (i, w) in weights.iter().enumerate() {
        f.push(QueueNode::new(GraphIdx(i), *w));
    }
    assert_eq!(f.len(), 12);
    let mut out = Vec::new();
    while let Some(e) = f.pop() {
        out.push(e.weight);
    }
    assert_eq!(out, vec![0, 1, 2, 3, 3, 4, 5, 6, 7, 8, 9, 9]);
    assert_eq!(f.len(), 0);
}

#[test]
fn dijkstra_on_a_grid_finds_the_cheapest_way() {
    // a 4 x 4 grid with cheap rows and dear columns
    let mut g = Graph::<(), Undirected, Weighted>::default();
    for _ in 0..16 {
        g.add_node(());
    }
    for r in 0..4 {
        for c in 0..4 {
            let at = GraphIdx(r * 4 + c);
            if c + 1 < 4 {
                g.add_edge(at, GraphIdx(r * 4 + c + 1), 1 + r);
            }
            if r + 1 < 4 {
                g.add_edge(at, GraphIdx((r + 1) * 4 + c), 10);
            }
        }
    }
    let path = g.path_to(GraphIdx(0), GraphIdx(15)).unwrap();
    let mut cost = 0;
    let mut from = GraphIdx(0);
    for step in &path {
        cost += g.edge_weight(from, *step);
        from = *step;
    }
    assert_eq!(cost, 33);
    assert_eq!(*path.last().unwrap(), GraphIdx(15));
    let all = g.dijkstra(GraphIdx(0), Some(12), None);
    assert_eq!(all.len(), 7);
}

#[test]
fn add_node_keeps_cells_while_the_matrix_grows() {
    let mut g = Graph::<usize, Directed, Weighted>::default();
    let n = 600;
    for i in 0..n {
        let idx = g.add_node(i);
        assert_eq!(idx, GraphIdx(i));
        if i > 0 {
            g.add_edge(GraphIdx(i - 1), idx, i);
            g.add_edge(idx, GraphIdx(i / 2), i + 1);
        }
    }
    assert_eq!(g.nodes(), n);
    assert_eq!(g.cell_count(), n * n);
    for i in 1..n {
        assert_eq!(g.edge_weight(GraphIdx(i - 1), GraphIdx(i)), i);
        assert_eq!(g.edges(GraphIdx(i)).len(), n);
        let row: usize = g.edges(GraphIdx(i)).iter().filter(|w| **w > 0).count();
        assert!(row <= 2);
    }
    assert_eq!(g.edge_weight(GraphIdx(9), GraphIdx(4)), 10);
    assert_eq!(g.edge_weight(GraphIdx(4), GraphIdx(9)), 0);
    assert_eq!(g.get_idx(&599), Some(GraphIdx(599)));
}
