use crate::edges::{
    degree_of, edge_degree, entries_per_edge, ids_below, lemma_degree_prefix, neighbor_count, total, Direction,
    EdgeList,
};
use rayon::slice::ParallelSliceMut;
use vstd::prelude::*;

verus! {

/// Ascending order.
pub open spec fn sorted(s: Seq<usize>) -> bool {
    forall|i: int, j: int| 0 <= i <= j < s.len() ==> #[trigger] s[i] <= #[trigger] s[j]
}

/// Offsets that are nondecreasing from the first to the last.
pub open spec fn nondecreasing(off: Seq<usize>) -> bool {
    forall|i: int, j: int| 0 <= i <= j < off.len() ==> #[trigger] off[i] <= #[trigger] off[j]
}

proof fn lemma_total_take_step(d: Seq<usize>, j: int)
    requires
        0 <= j < d.len(),
    ensures
        total(d.take(j + 1)) == total(d.take(j)) + d[j],
{
    assert(d.take(j + 1).drop_last() =~= d.take(j));
}

proof fn lemma_total_take_mono(d: Seq<usize>, i: int, j: int)
    requires
        0 <= i <= j <= d.len(),
    ensures
        total(d.take(i)) <= total(d.take(j)),
    decreases j - i,
{
    if i < j {
        lemma_total_take_step(d, j - 1);
        lemma_total_take_mono(d, i, j - 1);
    }
}

/// Exclusive prefix sums: `r[0] == 0` and `r[i + 1] == r[i] + degrees[i]`.
pub fn prefix_sum(degrees: &Vec<usize>) -> (r: Vec<usize>)
    requires
        total(degrees@) <= usize::MAX,
    ensures
        r@.len() == degrees@.len() + 1,
        forall|i: int| 0 <= i <= degrees@.len() ==> #[trigger] r@[i] == total(degrees@.take(i)),
        r@[0] == 0,
        forall|i: int| 0 <= i < degrees@.len() ==> r@[i + 1] == r@[i] + #[trigger] degrees@[i],
        r@[degrees@.len() as int] == total(degrees@),
        nondecreasing(r@),
{
    let n = degrees.len();
    let mut sums: Vec<usize> = Vec::new();
    let mut sum: usize = 0;
    let mut i: usize = 0;
    while i < n
        invariant
            n == degrees@.len(),
            total(degrees@) <= usize::MAX,
            i <= n,
            sums@.len() == i,
            sum == total(degrees@.take(i as int)),
            forall|j: int| 0 <= j < i ==> #[trigger] sums@[j] == total(degrees@.take(j)),
        decreases n - i,
    {
        proof {
            lemma_total_take_step(degrees@, i as int);
            lemma_total_take_mono(degrees@, i + 1, n as int);
            assert(degrees@.take(n as int) =~= degrees@);
        }
        sums.push(sum);
        sum = sum + degrees[i];
        i = i + 1;
    }
    sums.push(sum);
    proof {
        assert(degrees@.take(n as int) =~= degrees@);
        assert(degrees@.take(0) =~= Seq::<usize>::empty());
        assert forall|j: int| 0 <= j < n implies sums@[j + 1] == sums@[j] + #[trigger] degrees@[j] by {
            lemma_total_take_step(degrees@, j);
        }
        assert forall|a: int, b: int| 0 <= a <= b < sums@.len() implies #[trigger] sums@[a] <= #[trigger] sums@[b] by {
            lemma_total_take_mono(degrees@, a, b);
        }
    }
    sums
}

/// Relies on rayon's `ParallelSliceMut::par_sort_unstable`: it sorts the slice
/// `v[lo..hi]` in place, ascending, so the range ends up an ordered permutation of
/// what it held and nothing outside it changes.
#[verifier::external_body]
fn par_sort_range(v: &mut Vec<usize>, lo: usize, hi: usize)
    requires
        lo <= hi <= old(v)@.len(),
    ensures
        final(v)@.len() == old(v)@.len(),
        forall|j: int| 0 <= j < old(v)@.len() && (j < lo || j >= hi) ==> #[trigger] final(v)@[j] == old(v)@[j],
        sorted(final(v)@.subrange(lo as int, hi as int)),
        final(v)@.subrange(lo as int, hi as int).to_multiset() == old(v)@.subrange(lo as int, hi as int).to_multiset(),
{
    v[lo..hi].par_sort_unstable();
}

/// Sorts the neighbor range `targets[offsets[i]..offsets[i + 1]]` of every node,
/// each range keeping the values it held.
pub fn sort_targets(offsets: &Vec<usize>, targets: &mut Vec<usize>)
    requires
        offsets@.len() >= 1,
        nondecreasing(offsets@),
        offsets@.last() == old(targets)@.len(),
    ensures
        final(targets)@.len() == old(targets)@.len(),
        forall|j: int| 0 <= j < offsets@[0] ==> #[trigger] final(targets)@[j] == old(targets)@[j],
        forall|i: int| 0 <= i < offsets@.len() - 1 ==>
            #[trigger] sorted(final(targets)@.subrange(offsets@[i] as int, offsets@[i + 1] as int)),
        forall|i: int| 0 <= i < offsets@.len() - 1 ==>
            (#[trigger] final(targets)@.subrange(offsets@[i] as int, offsets@[i + 1] as int)).to_multiset()
            == old(targets)@.subrange(offsets@[i] as int, offsets@[i + 1] as int).to_multiset(),
{
    let ghost orig = targets@;
    let ghost off = offsets@;
    let n = offsets.len() - 1;
    let mut i: usize = 0;
    while i < n
        invariant
            off == offsets@,
            n == off.len() - 1,
            nondecreasing(off),
            off.last() == orig.len(),
            i <= n,
            targets@.len() == orig.len(),
            forall|j: int| 0 <= j < orig.len() && (j < off[0] || j >= off[i as int]) ==> #[trigger] targets@[j] == orig[j],
            forall|k: int| 0 <= k < i ==> #[trigger] sorted(targets@.subrange(off[k] as int, off[k + 1] as int)),
            forall|k: int| 0 <= k < i ==>
                (#[trigger] targets@.subrange(off[k] as int, off[k + 1] as int)).to_multiset()
                == orig.subrange(off[k] as int, off[k + 1] as int).to_multiset(),
        decreases n - i,
    {
        let lo = offsets[i];
        let hi = offsets[i + 1];
        let ghost before = targets@;
        proof {
            assert(off[i as int] <= off[i + 1] <= off[n as int]);
        }
        par_sort_range(targets, lo, hi);
        proof {
            assert(before.subrange(lo as int, hi as int) =~= orig.subrange(lo as int, hi as int));
            assert forall|k: int| 0 <= k < i implies #[trigger] targets@.subrange(off[k] as int, off[k + 1] as int)
                =~= before.subrange(off[k] as int, off[k + 1] as int) by {
                assert(off[k] <= off[k + 1] <= off[i as int]);
            }
        }
        i = i + 1;
    }
}

/// What one placement step does to the filled part of node `i`'s range.
proof fn lemma_filled_step(before: Seq<usize>, after: Seq<usize>, dir: Direction, s: usize, t: usize, i: usize, v: usize)
    requires
        match dir {
            Direction::Outgoing => after == (if i == s { before.push(t) } else { before }),
            Direction::Incoming => after == (if i == t { before.push(s) } else { before }),
            Direction::Undirected => after == (if i == s && i == t { before.push(t).push(s) } else if i == s {
                before.push(t)
            } else if i == t {
                before.push(s)
            } else {
                before
            }),
        },
    ensures
        after.to_multiset().count(v) == before.to_multiset().count(v) + (match dir {
            Direction::Outgoing => if (s, t) == (i, v) { 1nat } else { 0nat },
            Direction::Incoming => if (s, t) == (v, i) { 1nat } else { 0nat },
            Direction::Undirected => (if (s, t) == (i, v) { 1nat } else { 0nat }) + (if (s, t) == (v, i) { 1nat } else { 0nat }),
        }),
{
    broadcast use vstd::multiset::group_multiset_axioms;
    vstd::seq_lib::to_multiset_build(before, t);
    vstd::seq_lib::to_multiset_build(before, s);
    vstd::seq_lib::to_multiset_build(before.push(t), s);
}

proof fn lemma_write_outside(s: Seq<usize>, lo: int, hi: int, j: int, x: usize)
    requires
        0 <= lo <= hi <= s.len(),
        0 <= j < s.len(),
        j < lo || j >= hi,
    ensures
        s.update(j, x).subrange(lo, hi) == s.subrange(lo, hi),
{
    assert(s.update(j, x).subrange(lo, hi) =~= s.subrange(lo, hi));
}

/// Writes `b` at the cursor of node `a` and advances that cursor. `off` holds
/// the start of each node's range; the filled part of a range runs from its
/// start to its cursor.
fn place_entry(cursors: &mut Vec<usize>, targets: &mut Vec<usize>, a: usize, b: usize, Ghost(off): Ghost<Seq<usize>>)
    requires
        off.len() >= 1,
        old(cursors)@.len() == off.len(),
        nondecreasing(off),
        old(targets)@.len() == off.last(),
        a < off.len() - 1,
        forall|i: int| 0 <= i < off.len() - 1 ==> off[i] <= #[trigger] old(cursors)@[i] <= off[i + 1],
        old(cursors)@[a as int] < off[a + 1],
    ensures
        final(cursors)@ == old(cursors)@.update(a as int, (old(cursors)@[a as int] + 1) as usize),
        final(targets)@ == old(targets)@.update(old(cursors)@[a as int] as int, b),
        final(targets)@.subrange(off[a as int] as int, final(cursors)@[a as int] as int)
            == old(targets)@.subrange(off[a as int] as int, old(cursors)@[a as int] as int).push(b),
        forall|i: int| 0 <= i < off.len() - 1 && i != a ==>
            (#[trigger] final(targets)@.subrange(off[i] as int, final(cursors)@[i] as int))
            == old(targets)@.subrange(off[i] as int, old(cursors)@[i] as int),
{
    let slot = cursors[a];
    proof {
        assert(off[a + 1] <= off[off.len() - 1]);
    }
    targets.set(slot, b);
    cursors.set(a, slot + 1);
    proof {
        let t0 = old(targets)@;
        assert(targets@.subrange(off[a as int] as int, slot + 1) =~= t0.subrange(off[a as int] as int, slot as int).push(b));
        assert forall|i: int| 0 <= i < off.len() - 1 && i != a implies
            (#[trigger] targets@.subrange(off[i] as int, cursors@[i] as int))
            == t0.subrange(off[i] as int, old(cursors)@[i] as int) by {
            if i < a {
                assert(off[i + 1] <= off[a as int]);
            } else {
                assert(off[a + 1] <= off[i]);
            }
            assert(off[i] <= off[off.len() - 1]);
            lemma_write_outside(t0, off[i] as int, old(cursors)@[i] as int, slot as int, b);
        }
    }
}

/// Scatters every edge endpoint into its node's range. On entry `cursors` holds
/// the exclusive offsets; on return each cursor has moved to the end of its
/// node's range, that is, to where the next node's range starts.
#[verifier::rlimit(40)]
fn place_targets(edge_list: &EdgeList, direction: Direction, cursors: &mut Vec<usize>, targets: &mut Vec<usize>)
    requires
        old(cursors)@.len() >= 1,
        nondecreasing(old(cursors)@),
        ids_below(edge_list@, (old(cursors)@.len() - 1) as nat),
        forall|i: int| 0 <= i < old(cursors)@.len() - 1 ==>
            old(cursors)@[i + 1] - old(cursors)@[i] == #[trigger] degree_of(edge_list@, direction, i as usize),
        old(targets)@.len() == old(cursors)@.last(),
        forall|j: int| 0 <= j < old(targets)@.len() ==> #[trigger] old(targets)@[j] < old(cursors)@.len() - 1,
    ensures
        final(cursors)@.len() == old(cursors)@.len(),
        forall|i: int| 0 <= i < old(cursors)@.len() - 1 ==> #[trigger] final(cursors)@[i] == old(cursors)@[i + 1],
        final(cursors)@.last() == old(cursors)@.last(),
        final(targets)@.len() == old(targets)@.len(),
        forall|j: int| 0 <= j < final(targets)@.len() ==> #[trigger] final(targets)@[j] < old(cursors)@.len() - 1,
        forall|i: int, v: usize| 0 <= i < old(cursors)@.len() - 1 ==>
            #[trigger] final(targets)@.subrange(old(cursors)@[i] as int, old(cursors)@[i + 1] as int).to_multiset().count(v)
            == neighbor_count(edge_list@.to_multiset(), direction, i as usize, v),
{
    broadcast use vstd::seq_lib::group_to_multiset_ensures;
    broadcast use vstd::multiset::group_multiset_axioms;
    let ghost off = cursors@;
    let ghost edges = edge_list@;
    let ghost n = (off.len() - 1) as nat;
    let len = edge_list.len();
    let slots = cursors.len();
    let mut k: usize = 0;
    proof {
        assert(edges.take(0) =~= Seq::<(usize, usize)>::empty());
        assert forall|i: int, v: usize| 0 <= i < n implies
            #[trigger] targets@.subrange(off[i] as int, cursors@[i] as int).to_multiset().count(v)
            == neighbor_count(edges.take(0).to_multiset(), direction, i as usize, v) by {
            assert(targets@.subrange(off[i] as int, cursors@[i] as int) =~= Seq::<usize>::empty());
        }
    }
    while k < len
        invariant
            len == edges.len(),
            edges == edge_list@,
            n < slots,
            off.len() == n + 1,
            nondecreasing(off),
            ids_below(edges, n),
            forall|i: int| 0 <= i < n ==> off[i + 1] - off[i] == #[trigger] degree_of(edges, direction, i as usize),
            targets@.len() == off.last(),
            k <= len,
            cursors@.len() == n + 1,
            cursors@[n as int] == off[n as int],
            forall|i: int| 0 <= i < n ==>
                #[trigger] cursors@[i] == off[i] + degree_of(edges.take(k as int), direction, i as usize),
            forall|j: int| 0 <= j < targets@.len() ==> #[trigger] targets@[j] < n,
            forall|i: int, v: usize| 0 <= i < n ==>
                #[trigger] targets@.subrange(off[i] as int, cursors@[i] as int).to_multiset().count(v)
                == neighbor_count(edges.take(k as int).to_multiset(), direction, i as usize, v),
        decreases len - k,
    {
        let (s, t) = edge_list.edge(k);
        let ghost prev = edges.take(k as int);
        let ghost next = edges.take(k + 1);
        let ghost cur0 = cursors@;
        let ghost tg0 = targets@;
        proof {
            lemma_prefix_step(edges, k as int);
            assert(edges[k as int] == (s, t));
            assert forall|i: int| 0 <= i < n implies off[i] <= #[trigger] cursors@[i] <= off[i + 1] by {
                lemma_degree_prefix(edges, k as int, direction, i as usize);
            }
            lemma_degree_prefix(edges, k + 1, direction, s);
            lemma_degree_prefix(edges, k + 1, direction, t);
            assert(degree_of(next, direction, s) == degree_of(prev, direction, s) + edge_degree((s, t), direction, s));
            assert(degree_of(next, direction, t) == degree_of(prev, direction, t) + edge_degree((s, t), direction, t));
            assert(off[s + 1] <= off[n as int] && off[t + 1] <= off[n as int]);
            assert(cur0[s as int] + edge_degree((s, t), direction, s) <= off[s + 1]);
            assert(cur0[t as int] + edge_degree((s, t), direction, t) <= off[t + 1]);
        }
        match direction {
            Direction::Outgoing => {
                place_entry(cursors, targets, s, t, Ghost(off));
            },
            Direction::Incoming => {
                place_entry(cursors, targets, t, s, Ghost(off));
            },
            Direction::Undirected => {
                place_entry(cursors, targets, s, t, Ghost(off));
                proof {
                    assert(cursors@ == bump(cur0, s));
                    assert forall|i: int| 0 <= i < n implies off[i] <= #[trigger] cursors@[i] <= off[i + 1] by {
                        lemma_degree_prefix(edges, k as int, direction, i as usize);
                    }
                }
                place_entry(cursors, targets, t, s, Ghost(off));
            },
        }
        proof {
            assert forall|i: int| 0 <= i < n implies
                #[trigger] cursors@[i] == off[i] + degree_of(next, direction, i as usize) by {
                assert(degree_of(next, direction, i as usize) == degree_of(prev, direction, i as usize)
                    + edge_degree((s, t), direction, i as usize));
                assert(cur0[i] == off[i] + degree_of(prev, direction, i as usize));
                lemma_cursor_step(cur0, cursors@, direction, s, t, i);
            }
            assert forall|i: int, v: usize| 0 <= i < n implies
                #[trigger] targets@.subrange(off[i] as int, cursors@[i] as int).to_multiset().count(v)
                == neighbor_count(next.to_multiset(), direction, i as usize, v) by {
                let before = tg0.subrange(off[i] as int, cur0[i] as int);
                let after = targets@.subrange(off[i] as int, cursors@[i] as int);
                assert(before.to_multiset().count(v) == neighbor_count(prev.to_multiset(), direction, i as usize, v));
                lemma_neighbor_step(prev, (s, t), direction, i as usize, v);
                lemma_filled_step(before, after, direction, s, t, i as usize, v);
            }
        }
        k = k + 1;
    }
    proof {
        assert(edges.take(len as int) =~= edges);
        assert forall|i: int| 0 <= i < n implies #[trigger] cursors@[i] == off[i + 1] by {}
        assert forall|i: int, v: usize| 0 <= i < n implies
            #[trigger] targets@.subrange(off[i] as int, off[i + 1] as int).to_multiset().count(v)
            == neighbor_count(edges.to_multiset(), direction, i as usize, v) by {
            assert(cursors@[i] == off[i + 1]);
            assert(targets@.subrange(off[i] as int, cursors@[i] as int).to_multiset().count(v)
                == neighbor_count(edges.take(len as int).to_multiset(), direction, i as usize, v));
        }
    }
}

spec fn bump(c: Seq<usize>, a: usize) -> Seq<usize> {
    c.update(a as int, (c[a as int] + 1) as usize)
}

proof fn lemma_cursor_step(cur0: Seq<usize>, cur: Seq<usize>, dir: Direction, s: usize, t: usize, i: int)
    requires
        s < cur0.len(),
        t < cur0.len(),
        0 <= i < cur0.len(),
        i <= usize::MAX,
        cur0[s as int] + edge_degree((s, t), dir, s) <= usize::MAX,
        cur0[t as int] + edge_degree((s, t), dir, t) <= usize::MAX,
        cur == (match dir {
            Direction::Outgoing => bump(cur0, s),
            Direction::Incoming => bump(cur0, t),
            Direction::Undirected => bump(bump(cur0, s), t),
        }),
    ensures
        cur[i] == cur0[i] + edge_degree((s, t), dir, i as usize),
{
    match dir {
        Direction::Outgoing => {
            assert(edge_degree((s, t), dir, s) == 1);
            assert(cur == cur0.update(s as int, (cur0[s as int] + 1) as usize));
        },
        Direction::Incoming => {
            assert(edge_degree((s, t), dir, t) == 1);
            assert(cur == cur0.update(t as int, (cur0[t as int] + 1) as usize));
        },
        Direction::Undirected => {
            let mid = bump(cur0, s);
            assert(mid[s as int] == cur0[s as int] + 1);
            if s != t {
                assert(mid[t as int] == cur0[t as int]);
            }
        },
    }
}

proof fn lemma_prefix_step(edges: Seq<(usize, usize)>, k: int)
    requires
        0 <= k < edges.len(),
    ensures
        edges.take(k + 1).drop_last() == edges.take(k),
        edges.take(k + 1).last() == edges[k],
        edges.take(k + 1) == edges.take(k).push(edges[k]),
        edges.take(k + 1).to_multiset() == edges.take(k).to_multiset().insert(edges[k]),
{
    assert(edges.take(k + 1).drop_last() =~= edges.take(k));
    assert(edges.take(k + 1) =~= edges.take(k).push(edges[k]));
    vstd::seq_lib::to_multiset_build(edges.take(k), edges[k]);
}

proof fn lemma_neighbor_step(prev: Seq<(usize, usize)>, e: (usize, usize), dir: Direction, i: usize, v: usize)
    ensures
        neighbor_count(prev.to_multiset().insert(e), dir, i, v) == neighbor_count(prev.to_multiset(), dir, i, v)
            + (match dir {
                Direction::Outgoing => if e == (i, v) { 1nat } else { 0nat },
                Direction::Incoming => if e == (v, i) { 1nat } else { 0nat },
                Direction::Undirected => (if e == (i, v) { 1nat } else { 0nat }) + (if e == (v, i) { 1nat } else { 0nat }),
            }),
{
    broadcast use vstd::multiset::group_multiset_axioms;
}

/// Compressed-sparse-row adjacency: node `i`'s neighbors are
/// `targets[offsets[i]..offsets[i + 1]]`.
pub struct CSR {
    offsets: Vec<usize>,
    targets: Vec<usize>,
}

impl CSR {
    pub closed spec fn offsets_view(&self) -> Seq<usize> {
        self.offsets@
    }

    pub closed spec fn targets_view(&self) -> Seq<usize> {
        self.targets@
    }

    pub open spec fn spec_node_count(&self) -> nat {
        (self.offsets_view().len() - 1) as nat
    }

    /// The neighbor range of `node`.
    pub open spec fn neighbors_view(&self, node: int) -> Seq<usize> {
        self.targets_view().subrange(self.offsets_view()[node] as int, self.offsets_view()[node + 1] as int)
    }

    /// Ranges that start at zero, follow each other without gap or overlap and
    /// end at the last target; ids below the node count; each range sorted.
    pub open spec fn wf(&self) -> bool {
        &&& self.offsets_view().len() >= 1
        &&& self.offsets_view()[0] == 0
        &&& nondecreasing(self.offsets_view())
        &&& self.offsets_view().last() == self.targets_view().len()
        &&& forall|j: int| 0 <= j < self.targets_view().len() ==> #[trigger] self.targets_view()[j] < self.spec_node_count()
        &&& forall|i: int| 0 <= i < self.spec_node_count() ==> #[trigger] sorted(self.neighbors_view(i))
    }

    /// This CSR is the canonical layout of `edges` over `n` nodes under `dir`.
    pub open spec fn built_from(&self, edges: Seq<(usize, usize)>, n: nat, dir: Direction) -> bool {
        &&& self.wf()
        &&& self.spec_node_count() == n
        &&& self.targets_view().len() == entries_per_edge(dir) * edges.len()
        &&& forall|i: int| 0 <= i < n ==>
            self.offsets_view()[i + 1] - self.offsets_view()[i] == #[trigger] degree_of(edges, dir, i as usize)
        &&& forall|i: int, v: usize| 0 <= i < n ==>
            #[trigger] self.neighbors_view(i).to_multiset().count(v) == neighbor_count(edges.to_multiset(), dir, i as usize, v)
    }

    pub fn node_count(&self) -> (r: usize)
        requires
            self.wf(),
        ensures
            r == self.spec_node_count(),
    {
        self.offsets.len() - 1
    }

    pub fn edge_count(&self) -> (r: usize)
        ensures
            r == self.targets_view().len(),
    {
        self.targets.len()
    }

    pub fn degree(&self, node: usize) -> (r: usize)
        requires
            self.wf(),
            node < self.spec_node_count(),
        ensures
            r == self.neighbors_view(node as int).len(),
    {
        let slots = self.offsets.len();
        assert(node + 1 < slots);
        self.offsets[node + 1] - self.offsets[node]
    }

    pub fn neighbors(&self, node: usize) -> (r: &[usize])
        requires
            self.wf(),
            node < self.spec_node_count(),
        ensures
            r@ == self.neighbors_view(node as int),
    {
        let slots = self.offsets.len();
        assert(node + 1 < slots);
        let from = self.offsets[node];
        let to = self.offsets[node + 1];
        vstd::slice::slice_subrange(self.targets.as_slice(), from, to)
    }

    /// The offset array, `node_count + 1` entries.
    pub fn offsets(&self) -> (r: &[usize])
        ensures
            r@ == self.offsets_view(),
    {
        self.offsets.as_slice()
    }

    /// The target array, all neighbor ranges back to back.
    pub fn targets(&self) -> (r: &[usize])
        ensures
            r@ == self.targets_view(),
    {
        self.targets.as_slice()
    }

    /// Builds the CSR of `edge_list` over `node_count` nodes: degrees, prefix
    /// sums, placement of every endpoint, offset repair, and a sort of each range.
    #[verifier::rlimit(60)]
    pub fn from_edge_list(edge_list: &EdgeList, node_count: usize, direction: Direction) -> (r: CSR)
        requires
            ids_below(edge_list@, node_count as nat),
            entries_per_edge(direction) * edge_list@.len() <= usize::MAX,
        ensures
            r.built_from(edge_list@, node_count as nat, direction),
    {
        let degrees = edge_list.degrees(node_count, direction);
        let mut offsets = prefix_sum(&degrees);
        let ghost off = offsets@;
        let mut targets = zeroed(offsets[node_count]);
        proof {
            assert forall|i: int| 0 <= i < node_count implies
                off[i + 1] - off[i] == #[trigger] degree_of(edge_list@, direction, i as usize) by {
                assert(off[i + 1] == off[i] + degrees@[i]);
            }
            if targets@.len() > 0 {
                assert(node_count > 0);
            }
        }
        place_targets(edge_list, direction, &mut offsets, &mut targets);
        let _ = offsets.pop();
        offsets.insert(0, 0);
        proof {
            assert(offsets@ =~= off);
        }
        let ghost placed = targets@;
        sort_targets(&offsets, &mut targets);
        let r = CSR { offsets, targets };
        proof {
            lemma_assemble(r, off, placed, edge_list@, node_count as nat, direction);
        }
        r
    }
}

fn zeroed(len: usize) -> (r: Vec<usize>)
    ensures
        r@.len() == len,
        forall|x: int| 0 <= x < len ==> #[trigger] r@[x] == 0,
{
    let mut r: Vec<usize> = Vec::new();
    let mut j: usize = 0;
    while j < len
        invariant
            j <= len,
            r@.len() == j,
            forall|x: int| 0 <= x < j ==> #[trigger] r@[x] == 0,
        decreases len - j,
    {
        r.push(0);
        j = j + 1;
    }
    r
}

/// A sorted layout of placed ranges is the canonical CSR of the edges.
proof fn lemma_assemble(r: CSR, off: Seq<usize>, placed: Seq<usize>, edges: Seq<(usize, usize)>, n: nat, dir: Direction)
    requires
        r.offsets_view() == off,
        off.len() == n + 1,
        off[0] == 0,
        nondecreasing(off),
        off.last() == placed.len(),
        placed.len() == entries_per_edge(dir) * edges.len(),
        r.targets_view().len() == placed.len(),
        forall|j: int| 0 <= j < placed.len() ==> #[trigger] placed[j] < n,
        forall|i: int| 0 <= i < n ==> off[i + 1] - off[i] == #[trigger] degree_of(edges, dir, i as usize),
        forall|i: int, v: usize| 0 <= i < n ==>
            #[trigger] placed.subrange(off[i] as int, off[i + 1] as int).to_multiset().count(v)
            == neighbor_count(edges.to_multiset(), dir, i as usize, v),
        forall|i: int| 0 <= i < n ==>
            #[trigger] sorted(r.targets_view().subrange(off[i] as int, off[i + 1] as int)),
        forall|i: int| 0 <= i < n ==>
            (#[trigger] r.targets_view().subrange(off[i] as int, off[i + 1] as int)).to_multiset()
            == placed.subrange(off[i] as int, off[i + 1] as int).to_multiset(),
    ensures
        r.built_from(edges, n, dir),
{
    assert forall|i: int, v: usize| 0 <= i < n implies
        #[trigger] r.neighbors_view(i).to_multiset().count(v)
        == neighbor_count(edges.to_multiset(), dir, i as usize, v) by {
        assert(r.neighbors_view(i) == r.targets_view().subrange(off[i] as int, off[i + 1] as int));
        assert(placed.subrange(off[i] as int, off[i + 1] as int).to_multiset().count(v)
            == neighbor_count(edges.to_multiset(), dir, i as usize, v));
    }
    assert forall|i: int| 0 <= i < n implies #[trigger] sorted(r.neighbors_view(i)) by {
        assert(r.neighbors_view(i) == r.targets_view().subrange(off[i] as int, off[i + 1] as int));
    }
    lemma_bound_kept(off, placed, r.targets_view(), n);
}

/// Ids stay below `n` when each range keeps its values.
proof fn lemma_bound_kept(off: Seq<usize>, before: Seq<usize>, after: Seq<usize>, n: nat)
    requires
        off.len() == n + 1,
        off[0] == 0,
        nondecreasing(off),
        off.last() == before.len(),
        after.len() == before.len(),
        forall|j: int| 0 <= j < before.len() ==> #[trigger] before[j] < n,
        forall|i: int| 0 <= i < n ==>
            (#[trigger] after.subrange(off[i] as int, off[i + 1] as int)).to_multiset()
            == before.subrange(off[i] as int, off[i + 1] as int).to_multiset(),
    ensures
        forall|j: int| 0 <= j < after.len() ==> #[trigger] after[j] < n,
{
    broadcast use vstd::seq_lib::group_to_multiset_ensures;
    assert forall|x: int| 0 <= x < after.len() implies #[trigger] after[x] < n by {
        let i = lemma_range_of(off, x);
        assert(off[i + 1] <= off[n as int]);
        let sub = after.subrange(off[i] as int, off[i + 1] as int);
        let old_sub = before.subrange(off[i] as int, off[i + 1] as int);
        assert(sub[x - off[i]] == after[x]);
        assert(sub.contains(after[x]));
        assert(old_sub.to_multiset().count(after[x]) > 0);
        assert(old_sub.contains(after[x]));
        let y = choose|y: int| 0 <= y < old_sub.len() && old_sub[y] == after[x];
        assert(before[off[i] + y] == old_sub[y]);
    }
}

/// The node whose range holds position `x`.
proof fn lemma_range_of(off: Seq<usize>, x: int) -> (i: int)
    requires
        off.len() >= 1,
        nondecreasing(off),
        off[0] <= x < off.last(),
    ensures
        0 <= i < off.len() - 1,
        off[i] <= x < off[i + 1],
    decreases off.len(),
{
    let n = off.len() - 1;
    if x >= off[n - 1] {
        n - 1
    } else {
        lemma_range_of(off.drop_last(), x)
    }
}

/// Two sorted sequences holding the same values are the same sequence.
proof fn lemma_sorted_same(x: Seq<usize>, y: Seq<usize>)
    requires
        sorted(x),
        sorted(y),
        x.to_multiset() == y.to_multiset(),
    ensures
        x == y,
{
    let leq = |p: usize, q: usize| p <= q;
    assert(vstd::relations::total_ordering(leq));
    assert(vstd::relations::sorted_by(x, leq)) by {
        assert forall|i: int, j: int| 0 <= i < j < x.len() implies #[trigger] leq(x[i], x[j]) by {
            assert(x[i] <= x[j]);
        }
    }
    assert(vstd::relations::sorted_by(y, leq)) by {
        assert forall|i: int, j: int| 0 <= i < j < y.len() implies #[trigger] leq(y[i], y[j]) by {
            assert(y[i] <= y[j]);
        }
    }
    vstd::seq_lib::lemma_sorted_unique(x, y, leq);
}

proof fn lemma_offsets_agree(a: CSR, b: CSR, i: int)
    requires
        a.wf(),
        b.wf(),
        a.spec_node_count() == b.spec_node_count(),
        forall|k: int| 0 <= k < a.spec_node_count() ==>
            (#[trigger] a.neighbors_view(k)).len() == b.neighbors_view(k).len(),
        0 <= i <= a.spec_node_count(),
    ensures
        a.offsets_view()[i] == b.offsets_view()[i],
    decreases i,
{
    if i > 0 {
        lemma_offsets_agree(a, b, i - 1);
        assert(a.neighbors_view(i - 1).len() == b.neighbors_view(i - 1).len());
        assert(a.offsets_view()[i - 1] <= a.offsets_view()[i] <= a.offsets_view()[a.spec_node_count() as int]);
        assert(b.offsets_view()[i - 1] <= b.offsets_view()[i] <= b.offsets_view()[b.spec_node_count() as int]);
    }
}

/// The built layout depends only on which edges there are, each counted with
/// its multiplicity, and not on the order in which they were placed: CSRs built
/// over the same nodes and direction from edge lists that hold the same edges
/// have identical offset and target arrays.
pub proof fn lemma_layout_order_independent(
    a: CSR,
    b: CSR,
    edges_a: Seq<(usize, usize)>,
    edges_b: Seq<(usize, usize)>,
    n: nat,
    dir: Direction,
)
    requires
        edges_a.to_multiset() == edges_b.to_multiset(),
        a.built_from(edges_a, n, dir),
        b.built_from(edges_b, n, dir),
    ensures
        a.offsets_view() == b.offsets_view(),
        a.targets_view() == b.targets_view(),
{
    broadcast use vstd::seq_lib::group_to_multiset_ensures;
    assert forall|k: int| 0 <= k < n implies #[trigger] a.neighbors_view(k) == b.neighbors_view(k) by {
        assert(a.neighbors_view(k).to_multiset() =~= b.neighbors_view(k).to_multiset()) by {
            assert forall|v: usize| a.neighbors_view(k).to_multiset().count(v) == b.neighbors_view(k).to_multiset().count(v) by {
                assert(a.neighbors_view(k).to_multiset().count(v) == neighbor_count(edges_a.to_multiset(), dir, k as usize, v));
                assert(b.neighbors_view(k).to_multiset().count(v) == neighbor_count(edges_b.to_multiset(), dir, k as usize, v));
            }
        }
        assert(sorted(a.neighbors_view(k)));
        assert(sorted(b.neighbors_view(k)));
        lemma_sorted_same(a.neighbors_view(k), b.neighbors_view(k));
    }
    assert forall|k: int| 0 <= k <= n implies #[trigger] a.offsets_view()[k] == b.offsets_view()[k] by {
        lemma_offsets_agree(a, b, k);
    }
    assert(a.offsets_view() =~= b.offsets_view());
    let off = a.offsets_view();
    assert forall|x: int| 0 <= x < a.targets_view().len() implies #[trigger] a.targets_view()[x] == b.targets_view()[x] by {
        let k = lemma_range_of(off, x);
        assert(off[k + 1] <= off[n as int]);
        assert(a.neighbors_view(k)[x - off[k]] == a.targets_view()[x]);
        assert(b.neighbors_view(k)[x - off[k]] == b.targets_view()[x]);
    }
    assert(a.targets_view() =~= b.targets_view());
}

} // verus!
