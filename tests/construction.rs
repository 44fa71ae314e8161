use csr_graph::{prefix_sum, sort_targets, DirectedCSRGraph, Direction, EdgeList, UndirectedCSRGraph, CSR};

fn edges(pairs: &[(usize, usize)]) -> EdgeList {
    EdgeList::new(pairs.to_vec())
}

#[test]
fn undirected_triangle_round_trip() {
    let g = UndirectedCSRGraph::from_edge_list(edges(&[(0, 1), (1, 2), (2, 0)]));
    assert_eq!(g.node_count(), 3);
    assert_eq!(g.edge_count(), 3);
    assert_eq!(g.neighbors(0), &[1, 2]);
    assert_eq!(g.neighbors(1), &[0, 2]);
    assert_eq!(g.neighbors(2), &[0, 1]);
    assert_eq!(g.degree(1), 2);
}

#[test]
fn directed_three_edges() {
    let g = DirectedCSRGraph::from_edge_list(edges(&[(0, 1), (0, 2), (1, 2)]));
    assert_eq!(g.node_count(), 3);
    assert_eq!(g.edge_count(), 3);
    assert_eq!(g.out_neighbors(0), &[1, 2]);
    assert_eq!(g.out_neighbors(1), &[2]);
    assert!(g.out_neighbors(2).is_empty());
    assert!(g.in_neighbors(0).is_empty());
    assert_eq!(g.in_neighbors(1), &[0]);
    assert_eq!(g.in_neighbors(2), &[0, 1]);
    assert_eq!(g.out_degree(0), 2);
    assert_eq!(g.in_degree(2), 2);
    assert_eq!(g.in_degree(0), 0);
}

#[test]
fn self_loop_counts() {
    let el = edges(&[(0, 0)]);
    let und = CSR::from_edge_list(&el, 1, Direction::Undirected);
    assert_eq!(und.neighbors(0), &[0, 0]);
    assert_eq!(und.degree(0), 2);
    let out = CSR::from_edge_list(&el, 1, Direction::Outgoing);
    assert_eq!(out.neighbors(0), &[0]);
    let inc = CSR::from_edge_list(&el, 1, Direction::Incoming);
    assert_eq!(inc.neighbors(0), &[0]);
    let g = UndirectedCSRGraph::from_edge_list(edges(&[(0, 0)]));
    assert_eq!(g.edge_count(), 1);
    assert_eq!(g.neighbors(0), &[0, 0]);
}

#[test]
fn empty_input() {
    let el = edges(&[]);
    for dir in [Direction::Outgoing, Direction::Incoming, Direction::Undirected] {
        let c = CSR::from_edge_list(&el, 0, dir);
        assert_eq!(c.offsets(), &[0]);
        assert!(c.targets().is_empty());
        assert_eq!(c.node_count(), 0);
        assert_eq!(c.edge_count(), 0);
    }
}

#[test]
fn empty_edge_list_graph_has_one_node() {
    let g = DirectedCSRGraph::from_edge_list(edges(&[]));
    assert_eq!(g.node_count(), 1);
    assert_eq!(g.edge_count(), 0);
    assert!(g.out_neighbors(0).is_empty());
}

#[test]
fn degree_sums_match_edge_count() {
    let pairs = [(0, 3), (3, 1), (1, 1), (2, 0), (0, 3)];
    let el = edges(&pairs);
    let out: usize = el.degrees(4, Direction::Outgoing).iter().sum();
    let inc: usize = el.degrees(4, Direction::Incoming).iter().sum();
    let und: usize = el.degrees(4, Direction::Undirected).iter().sum();
    assert_eq!(out, 5);
    assert_eq!(inc, 5);
    assert_eq!(und, 10);
    assert_eq!(el.degrees(4, Direction::Outgoing), vec![2, 1, 1, 1]);
    assert_eq!(el.degrees(4, Direction::Incoming), vec![1, 2, 0, 2]);
    assert_eq!(el.degrees(4, Direction::Undirected), vec![3, 3, 1, 3]);
}

#[test]
fn offsets_and_sorted_ranges() {
    let pairs = [(2, 0), (0, 3), (0, 1), (3, 1), (0, 2), (1, 0), (2, 1)];
    let el = edges(&pairs);
    let c = CSR::from_edge_list(&el, 4, Direction::Outgoing);
    assert_eq!(c.offsets(), &[0, 3, 4, 6, 7]);
    assert_eq!(c.targets(), &[1, 2, 3, 0, 0, 1, 1]);
    let offs = c.offsets();
    assert_eq!(offs[0], 0);
    assert_eq!(offs[4], c.targets().len());
    for i in 0..4 {
        assert!(offs[i] <= offs[i + 1]);
        let r = c.neighbors(i);
        assert!(r.windows(2).all(|w| w[0] <= w[1]));
    }
    let u = CSR::from_edge_list(&el, 4, Direction::Undirected);
    assert_eq!(u.offsets(), &[0, 5, 9, 12, 14]);
    assert_eq!(u.targets(), &[1, 1, 2, 2, 3, 0, 0, 2, 3, 0, 0, 1, 0, 1]);
}

#[test]
fn layout_does_not_depend_on_edge_order() {
    let a = [(2, 0), (0, 3), (0, 1), (3, 1), (0, 2), (1, 0), (2, 1), (0, 1)];
    let mut b = a.to_vec();
    b.reverse();
    b.swap(1, 5);
    for dir in [Direction::Outgoing, Direction::Incoming, Direction::Undirected] {
        let x = CSR::from_edge_list(&edges(&a), 4, dir);
        let y = CSR::from_edge_list(&EdgeList::new(b.clone()), 4, dir);
        assert_eq!(x.offsets(), y.offsets());
        assert_eq!(x.targets(), y.targets());
    }
}

#[test]
fn parallel_edges_are_kept() {
    let g = DirectedCSRGraph::from_edge_list(edges(&[(1, 0), (1, 0), (0, 1)]));
    assert_eq!(g.out_neighbors(1), &[0, 0]);
    assert_eq!(g.in_neighbors(0), &[1, 1]);
    assert_eq!(g.edge_count(), 3);
}

#[test]
fn prefix_sum_values() {
    assert_eq!(prefix_sum(&vec![2, 0, 3, 1]), vec![0, 2, 2, 5, 6]);
    assert_eq!(prefix_sum(&vec![]), vec![0]);
}

#[test]
fn sort_targets_sorts_each_range() {
    let offsets = vec![0, 3, 3, 6];
    let mut targets = vec![5, 1, 3, 9, 2, 2];
    sort_targets(&offsets, &mut targets);
    assert_eq!(targets, vec![1, 3, 5, 2, 2, 9]);
}

#[test]
fn max_node_id_values() {
    assert_eq!(edges(&[]).max_node_id(), 0);
    assert_eq!(edges(&[(4, 1), (2, 7), (3, 3)]).max_node_id(), 7);
    let el = edges(&[(4, 1), (2, 7)]);
    assert_eq!(el.len(), 2);
    assert_eq!(el.edge(1), (2, 7));
}

#[test]
fn graphs_from_parts() {
    let el = edges(&[(0, 1), (1, 2)]);
    let out = CSR::from_edge_list(&el, 3, Direction::Outgoing);
    let inc = CSR::from_edge_list(&el, 3, Direction::Incoming);
    let g = DirectedCSRGraph::new(out, inc);
    assert_eq!(g.node_count(), 3);
    assert_eq!(g.edge_count(), 2);
    assert_eq!(g.in_neighbors(2), &[1]);
    let und = CSR::from_edge_list(&el, 3, Direction::Undirected);
    let u = UndirectedCSRGraph::new(und);
    assert_eq!(u.edge_count(), 2);
    assert_eq!(u.neighbors(1), &[0, 2]);
}
