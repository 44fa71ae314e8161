use vstd::multiset::Multiset;
use vstd::prelude::*;

verus! {

/// Which endpoint of an edge anchors it in an adjacency list.
#[derive(Clone, Copy, Debug, PartialEq, Eq, Structural)]
pub enum Direction {
    Outgoing,
    Incoming,
    Undirected,
}

/// Entries that one edge contributes: one for a directed view, two otherwise.
pub open spec fn entries_per_edge(dir: Direction) -> nat {
    match dir {
        Direction::Undirected => 2,
        _ => 1,
    }
}

/// Entries that the edge `e` puts in the list of `node`.
pub open spec fn edge_degree(e: (usize, usize), dir: Direction, node: usize) -> nat {
    let from_source: nat = if e.0 == node { 1 } else { 0 };
    let from_target: nat = if e.1 == node { 1 } else { 0 };
    match dir {
        Direction::Outgoing => from_source,
        Direction::Incoming => from_target,
        Direction::Undirected => from_source + from_target,
    }
}

/// Degree of `node` over a sequence of edges.
pub open spec fn degree_of(edges: Seq<(usize, usize)>, dir: Direction, node: usize) -> nat
    decreases edges.len(),
{
    if edges.len() == 0 {
        0
    } else {
        degree_of(edges.drop_last(), dir, node) + edge_degree(edges.last(), dir, node)
    }
}

/// How often `v` occurs among the neighbors of `node`, given the edges as a multiset.
/// Only the multiset matters: the order in which edges arrive does not.
pub open spec fn neighbor_count(
    m: Multiset<(usize, usize)>,
    dir: Direction,
    node: usize,
    v: usize,
) -> nat {
    match dir {
        Direction::Outgoing => m.count((node, v)),
        Direction::Incoming => m.count((v, node)),
        Direction::Undirected => m.count((node, v)) + m.count((v, node)),
    }
}

/// Every endpoint is a node id below `n`.
pub open spec fn ids_below(edges: Seq<(usize, usize)>, n: nat) -> bool {
    forall|k: int| 0 <= k < edges.len() ==> (#[trigger] edges[k]).0 < n && edges[k].1 < n
}

/// Largest endpoint over a sequence of edges; zero when there are none.
pub open spec fn max_id(edges: Seq<(usize, usize)>) -> usize
    decreases edges.len(),
{
    if edges.len() == 0 {
        0
    } else {
        let e = edges.last();
        let m = max_id(edges.drop_last());
        let hi = if e.0 >= e.1 { e.0 } else { e.1 };
        if m >= hi { m } else { hi }
    }
}

/// Sum of a sequence of counts.
pub open spec fn total(s: Seq<usize>) -> nat
    decreases s.len(),
{
    if s.len() == 0 {
        0
    } else {
        total(s.drop_last()) + s.last() as nat
    }
}

pub proof fn lemma_total_update(s: Seq<usize>, j: int, x: usize)
    requires
        0 <= j < s.len(),
    ensures
        total(s.update(j, x)) + s[j] == total(s) + x,
    decreases s.len(),
{
    if j == s.len() - 1 {
        assert(s.update(j, x).drop_last() =~= s.drop_last());
    } else {
        lemma_total_update(s.drop_last(), j, x);
        assert(s.update(j, x).drop_last() =~= s.drop_last().update(j, x));
    }
}

pub proof fn lemma_total_ge_elem(s: Seq<usize>, j: int)
    requires
        0 <= j < s.len(),
    ensures
        s[j] <= total(s),
    decreases s.len(),
{
    if j < s.len() - 1 {
        lemma_total_ge_elem(s.drop_last(), j);
    }
}

/// A degree over a prefix of the edges never exceeds the degree over all of them.
pub proof fn lemma_degree_prefix(edges: Seq<(usize, usize)>, k: int, dir: Direction, node: usize)
    requires
        0 <= k <= edges.len(),
    ensures
        degree_of(edges.take(k), dir, node) <= degree_of(edges, dir, node),
    decreases edges.len(),
{
    if k == edges.len() {
        assert(edges.take(k) =~= edges);
    } else {
        lemma_degree_prefix(edges.drop_last(), k, dir, node);
        assert(edges.drop_last().take(k) =~= edges.take(k));
    }
}

/// Sum of the degrees of the nodes below `n`.
pub open spec fn degree_sum(edges: Seq<(usize, usize)>, dir: Direction, n: nat) -> nat
    decreases n,
{
    if n == 0 {
        0
    } else {
        degree_sum(edges, dir, (n - 1) as nat) + degree_of(edges, dir, (n - 1) as usize)
    }
}

/// Entries that one edge puts at the nodes below `n`.
spec fn edge_degree_sum(e: (usize, usize), dir: Direction, n: nat) -> nat
    decreases n,
{
    if n == 0 {
        0
    } else {
        edge_degree_sum(e, dir, (n - 1) as nat) + edge_degree(e, dir, (n - 1) as usize)
    }
}

proof fn lemma_edge_degree_sum(e: (usize, usize), dir: Direction, n: nat)
    requires
        n <= usize::MAX + 1,
    ensures
        edge_degree_sum(e, dir, n) == match dir {
            Direction::Outgoing => if e.0 < n { 1nat } else { 0nat },
            Direction::Incoming => if e.1 < n { 1nat } else { 0nat },
            Direction::Undirected => (if e.0 < n { 1nat } else { 0nat }) + (if e.1 < n { 1nat } else { 0nat }),
        },
    decreases n,
{
    if n > 0 {
        lemma_edge_degree_sum(e, dir, (n - 1) as nat);
    }
}

proof fn lemma_degree_sum_last(edges: Seq<(usize, usize)>, dir: Direction, n: nat)
    requires
        edges.len() > 0,
    ensures
        degree_sum(edges, dir, n) == degree_sum(edges.drop_last(), dir, n) + edge_degree_sum(edges.last(), dir, n),
    decreases n,
{
    if n > 0 {
        lemma_degree_sum_last(edges, dir, (n - 1) as nat);
    }
}

/// Over nodes that cover every endpoint, the degrees add up to the number of
/// edges for a directed view and to twice that for an undirected one.
pub proof fn lemma_degree_sum(edges: Seq<(usize, usize)>, dir: Direction, n: nat)
    requires
        ids_below(edges, n),
        n <= usize::MAX + 1,
    ensures
        degree_sum(edges, dir, n) == entries_per_edge(dir) * edges.len(),
    decreases edges.len(),
{
    if edges.len() == 0 {
        lemma_degree_sum_empty(edges, dir, n);
    } else {
        let rest = edges.drop_last();
        assert(ids_below(rest, n)) by {
            assert forall|k: int| 0 <= k < rest.len() implies (#[trigger] rest[k]).0 < n && rest[k].1 < n by {
                assert(rest[k] == edges[k]);
            }
        }
        lemma_degree_sum(rest, dir, n);
        lemma_degree_sum_last(edges, dir, n);
        assert(edges.last() == edges[edges.len() - 1]);
        lemma_edge_degree_sum(edges.last(), dir, n);
        assert(entries_per_edge(dir) * edges.len() == entries_per_edge(dir) * rest.len() + entries_per_edge(dir))
            by (nonlinear_arith)
            requires rest.len() + 1 == edges.len();
    }
}

proof fn lemma_degree_sum_empty(edges: Seq<(usize, usize)>, dir: Direction, n: nat)
    requires
        edges.len() == 0,
    ensures
        degree_sum(edges, dir, n) == 0,
    decreases n,
{
    if n > 0 {
        lemma_degree_sum_empty(edges, dir, (n - 1) as nat);
    }
}

/// An edge collection: (source, target) pairs of node ids, in the order given.
pub struct EdgeList {
    edges: Vec<(usize, usize)>,
}

impl View for EdgeList {
    type V = Seq<(usize, usize)>;

    closed spec fn view(&self) -> Seq<(usize, usize)> {
        self.edges@
    }
}

impl EdgeList {
    pub fn new(edges: Vec<(usize, usize)>) -> (r: EdgeList)
        ensures
            r@ == edges@,
    {
        EdgeList { edges }
    }

    pub fn len(&self) -> (r: usize)
        ensures
            r == self@.len(),
    {
        self.edges.len()
    }

    /// The pair at position `k`.
    pub fn edge(&self, k: usize) -> (r: (usize, usize))
        requires
            k < self@.len(),
        ensures
            r == self@[k as int],
    {
        self.edges[k]
    }

    /// The largest node id that occurs, or zero for no edges.
    pub fn max_node_id(&self) -> (r: usize)
        ensures
            r == max_id(self@),
            forall|k: int| 0 <= k < self@.len() ==> (#[trigger] self@[k]).0 <= r && self@[k].1 <= r,
    {
        let mut m: usize = 0;
        let mut k: usize = 0;
        while k < self.edges.len()
            invariant
                k <= self@.len(),
                m == max_id(self@.take(k as int)),
                forall|j: int| 0 <= j < k ==> (#[trigger] self@[j]).0 <= m && self@[j].1 <= m,
            decreases self@.len() - k,
        {
            let e = self.edges[k];
            proof {
                assert(self@.take(k + 1).drop_last() =~= self@.take(k as int));
            }
            let hi = if e.0 >= e.1 { e.0 } else { e.1 };
            if hi > m {
                m = hi;
            }
            k = k + 1;
        }
        proof {
            assert(self@.take(k as int) =~= self@);
        }
        m
    }

    /// Degree of every node below `node_count` under `direction`.
    pub fn degrees(&self, node_count: usize, direction: Direction) -> (r: Vec<usize>)
        requires
            ids_below(self@, node_count as nat),
            entries_per_edge(direction) * self@.len() <= usize::MAX,
        ensures
            r@.len() == node_count,
            forall|i: int| 0 <= i < node_count ==> #[trigger] r@[i] == degree_of(self@, direction, i as usize),
            total(r@) == entries_per_edge(direction) * self@.len(),
    {
        let mut r: Vec<usize> = Vec::new();
        let mut i: usize = 0;
        while i < node_count
            invariant
                i <= node_count,
                r@.len() == i,
                forall|j: int| 0 <= j < i ==> #[trigger] r@[j] == 0,
                total(r@) == 0,
            decreases node_count - i,
        {
            proof {
                assert(r@.push(0).drop_last() =~= r@);
            }
            r.push(0);
            i = i + 1;
        }
        let ghost edges = self@;
        let ghost per = entries_per_edge(direction);
        let mut k: usize = 0;
        while k < self.edges.len()
            invariant
                edges == self@,
                per == entries_per_edge(direction),
                ids_below(edges, node_count as nat),
                per * edges.len() <= usize::MAX,
                k <= edges.len(),
                r@.len() == node_count,
                forall|j: int| 0 <= j < node_count ==> #[trigger] r@[j] == degree_of(edges.take(k as int), direction, j as usize),
                total(r@) == per * k,
            decreases edges.len() - k,
        {
            let (s, t) = self.edges[k];
            proof {
                assert(edges.take(k + 1).drop_last() =~= edges.take(k as int));
                assert(edges.take(k + 1).last() == edges[k as int]);
                assert(per * k + per <= per * edges.len()) by (nonlinear_arith)
                    requires k < edges.len(), per >= 1;
            }
            match direction {
                Direction::Outgoing => {
                    proof { lemma_total_ge_elem(r@, s as int); lemma_total_update(r@, s as int, (r@[s as int] + 1) as usize); }
                    let d = r[s];
                    r.set(s, d + 1);
                },
                Direction::Incoming => {
                    proof { lemma_total_ge_elem(r@, t as int); lemma_total_update(r@, t as int, (r@[t as int] + 1) as usize); }
                    let d = r[t];
                    r.set(t, d + 1);
                },
                Direction::Undirected => {
                    proof { lemma_total_ge_elem(r@, s as int); lemma_total_update(r@, s as int, (r@[s as int] + 1) as usize); }
                    let d = r[s];
                    r.set(s, d + 1);
                    proof { lemma_total_ge_elem(r@, t as int); lemma_total_update(r@, t as int, (r@[t as int] + 1) as usize); }
                    let d = r[t];
                    r.set(t, d + 1);
                },
            }
            proof {
                assert(per * (k + 1) == per * k + per) by (nonlinear_arith);
            }
            k = k + 1;
        }
        proof {
            assert(edges.take(k as int) =~= edges);
        }
        r
    }
}

} // verus!
