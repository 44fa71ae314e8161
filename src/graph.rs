use crate::csr::CSR;
use crate::edges::{max_id, Direction, EdgeList};
use vstd::prelude::*;

verus! {

/// A directed graph: one CSR of outgoing edges and one of incoming edges over
/// the same nodes.
pub struct DirectedCSRGraph {
    node_count: usize,
    edge_count: usize,
    out_edges: CSR,
    in_edges: CSR,
}

impl DirectedCSRGraph {
    pub closed spec fn out_csr(&self) -> CSR {
        self.out_edges
    }

    pub closed spec fn in_csr(&self) -> CSR {
        self.in_edges
    }

    /// The cached counts agree with the outgoing CSR.
    pub closed spec fn counts_cached(&self) -> bool {
        &&& self.node_count == self.out_edges.spec_node_count()
        &&& self.edge_count == self.out_edges.targets_view().len()
    }

    pub open spec fn wf(&self) -> bool {
        &&& self.out_csr().wf()
        &&& self.in_csr().wf()
        &&& self.out_csr().spec_node_count() == self.in_csr().spec_node_count()
        &&& self.counts_cached()
    }

    pub fn new(out_edges: CSR, in_edges: CSR) -> (r: DirectedCSRGraph)
        requires
            out_edges.wf(),
            in_edges.wf(),
            out_edges.spec_node_count() == in_edges.spec_node_count(),
        ensures
            r.wf(),
            r.out_csr() == out_edges,
            r.in_csr() == in_edges,
    {
        DirectedCSRGraph {
            node_count: out_edges.node_count(),
            edge_count: out_edges.edge_count(),
            out_edges,
            in_edges,
        }
    }

    /// Builds both CSRs of `edge_list` over the nodes `0..=max_node_id`.
    pub fn from_edge_list(edge_list: EdgeList) -> (r: DirectedCSRGraph)
        requires
            max_id(edge_list@) < usize::MAX,
        ensures
            r.wf(),
            r.out_csr().built_from(edge_list@, (max_id(edge_list@) + 1) as nat, Direction::Outgoing),
            r.in_csr().built_from(edge_list@, (max_id(edge_list@) + 1) as nat, Direction::Incoming),
    {
        let node_count = edge_list.max_node_id() + 1;
        let edge_total = edge_list.len();
        assert(edge_total <= usize::MAX);
        let out_edges = CSR::from_edge_list(&edge_list, node_count, Direction::Outgoing);
        let in_edges = CSR::from_edge_list(&edge_list, node_count, Direction::Incoming);
        DirectedCSRGraph::new(out_edges, in_edges)
    }

    pub fn node_count(&self) -> (r: usize)
        requires
            self.wf(),
        ensures
            r == self.out_csr().spec_node_count(),
    {
        self.node_count
    }

    pub fn edge_count(&self) -> (r: usize)
        requires
            self.wf(),
        ensures
            r == self.out_csr().targets_view().len(),
    {
        self.edge_count
    }

    pub fn out_degree(&self, node: usize) -> (r: usize)
        requires
            self.wf(),
            node < self.out_csr().spec_node_count(),
        ensures
            r == self.out_csr().neighbors_view(node as int).len(),
    {
        self.out_edges.degree(node)
    }

    pub fn out_neighbors(&self, node: usize) -> (r: &[usize])
        requires
            self.wf(),
            node < self.out_csr().spec_node_count(),
        ensures
            r@ == self.out_csr().neighbors_view(node as int),
    {
        self.out_edges.neighbors(node)
    }

    pub fn in_degree(&self, node: usize) -> (r: usize)
        requires
            self.wf(),
            node < self.in_csr().spec_node_count(),
        ensures
            r == self.in_csr().neighbors_view(node as int).len(),
    {
        self.in_edges.degree(node)
    }

    pub fn in_neighbors(&self, node: usize) -> (r: &[usize])
        requires
            self.wf(),
            node < self.in_csr().spec_node_count(),
        ensures
            r@ == self.in_csr().neighbors_view(node as int),
    {
        self.in_edges.neighbors(node)
    }
}

/// An undirected graph: one CSR in which every edge stands at both endpoints.
pub struct UndirectedCSRGraph {
    node_count: usize,
    edge_count: usize,
    edges: CSR,
}

impl UndirectedCSRGraph {
    pub closed spec fn csr(&self) -> CSR {
        self.edges
    }

    /// The cached counts agree with the CSR; each edge fills two slots.
    pub closed spec fn counts_cached(&self) -> bool {
        &&& self.node_count == self.edges.spec_node_count()
        &&& self.edge_count == self.edges.targets_view().len() / 2
    }

    pub open spec fn wf(&self) -> bool {
        &&& self.csr().wf()
        &&& self.counts_cached()
    }

    pub fn new(edges: CSR) -> (r: UndirectedCSRGraph)
        requires
            edges.wf(),
        ensures
            r.wf(),
            r.csr() == edges,
    {
        UndirectedCSRGraph {
            node_count: edges.node_count(),
            edge_count: edges.edge_count() / 2,
            edges,
        }
    }

    /// Builds the CSR of `edge_list` over the nodes `0..=max_node_id`, each
    /// edge entered at both of its endpoints.
    pub fn from_edge_list(edge_list: EdgeList) -> (r: UndirectedCSRGraph)
        requires
            max_id(edge_list@) < usize::MAX,
            2 * edge_list@.len() <= usize::MAX,
        ensures
            r.wf(),
            r.csr().built_from(edge_list@, (max_id(edge_list@) + 1) as nat, Direction::Undirected),
            r.csr().targets_view().len() / 2 == edge_list@.len(),
    {
        let node_count = edge_list.max_node_id() + 1;
        let edges = CSR::from_edge_list(&edge_list, node_count, Direction::Undirected);
        UndirectedCSRGraph::new(edges)
    }

    pub fn node_count(&self) -> (r: usize)
        requires
            self.wf(),
        ensures
            r == self.csr().spec_node_count(),
    {
        self.node_count
    }

    /// Logical edges: half the filled slots.
    pub fn edge_count(&self) -> (r: usize)
        requires
            self.wf(),
        ensures
            r == self.csr().targets_view().len() / 2,
    {
        self.edge_count
    }

    pub fn degree(&self, node: usize) -> (r: usize)
        requires
            self.wf(),
            node < self.csr().spec_node_count(),
        ensures
            r == self.csr().neighbors_view(node as int).len(),
    {
        self.edges.degree(node)
    }

    pub fn neighbors(&self, node: usize) -> (r: &[usize])
        requires
            self.wf(),
            node < self.csr().spec_node_count(),
        ensures
            r@ == self.csr().neighbors_view(node as int),
    {
        self.edges.neighbors(node)
    }
}

} // verus!
