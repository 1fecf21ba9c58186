use vstd::prelude::*;

use crate::errors::MinCutError;

verus! {

/// One undirected edge of the input graph: an unordered pair of distinct
/// nodes carrying a non-negative capacity.
#[derive(Clone, Copy, Debug, PartialEq, Eq, Structural)]
pub struct Edge {
    pub u: u32,
    pub v: u32,
    pub capacity: u32,
}

/// Whether edge `e` joins the nodes `x` and `y`, in either orientation.
pub open spec fn edge_joins(e: Edge, x: u32, y: u32) -> bool {
    (e.u == x && e.v == y) || (e.u == y && e.v == x)
}

/// Sum of the capacities of a sequence of edges.
pub open spec fn edge_cap_sum(edges: Seq<Edge>) -> int
    decreases edges.len(),
{
    if edges.len() == 0 {
        0
    } else {
        edge_cap_sum(edges.drop_last()) + edges.last().capacity
    }
}

/// Sum of the capacities of the edges with exactly one endpoint inside
/// `side`: the value of the cut that the node set `side` induces.
pub open spec fn cut_capacity(edges: Seq<Edge>, side: Set<u32>) -> int
    decreases edges.len(),
{
    if edges.len() == 0 {
        0
    } else {
        cut_capacity(edges.drop_last(), side) + if side.contains(edges.last().u)
            != side.contains(edges.last().v) {
            edges.last().capacity as int
        } else {
            0
        }
    }
}

pub proof fn lemma_edge_cap_sum_nonneg(edges: Seq<Edge>)
    ensures
        edge_cap_sum(edges) >= 0,
    decreases edges.len(),
{
    if edges.len() > 0 {
        lemma_edge_cap_sum_nonneg(edges.drop_last());
    }
}

/// Each single capacity is bounded by the capacity sum.
pub proof fn lemma_edge_cap_sum_at(edges: Seq<Edge>, k: int)
    requires
        0 <= k < edges.len(),
    ensures
        edges[k].capacity <= edge_cap_sum(edges),
    decreases edges.len(),
{
    if k == edges.len() - 1 {
        lemma_edge_cap_sum_nonneg(edges.drop_last());
    } else {
        lemma_edge_cap_sum_at(edges.drop_last(), k);
    }
}

pub proof fn lemma_edge_cap_sum_update(edges: Seq<Edge>, k: int, e: Edge)
    requires
        0 <= k < edges.len(),
    ensures
        edge_cap_sum(edges.update(k, e)) == edge_cap_sum(edges) - edges[k].capacity
            + e.capacity,
    decreases edges.len(),
{
    let upd = edges.update(k, e);
    if k == edges.len() - 1 {
        assert(upd.drop_last() =~= edges.drop_last());
    } else {
        assert(upd.drop_last() =~= edges.drop_last().update(k, e));
        lemma_edge_cap_sum_update(edges.drop_last(), k, e);
    }
}

/// The immutable input to a min-cut query: an undirected graph whose
/// edges carry non-negative integer capacities. Self-loops and duplicate
/// node identifiers are excluded by construction, and twice the total
/// capacity is kept below `u64::MAX` so that every flow value the
/// algorithm can produce fits in a `u64`.
pub struct CapacityGraph {
    pub nodes: Vec<u32>,
    pub edges: Vec<Edge>,
    pub cap_total: u64,
}

impl CapacityGraph {
    /// The node identifiers, in insertion order.
    pub open spec fn node_seq(self) -> Seq<u32> {
        self.nodes@
    }

    /// The edges, in insertion order.
    pub open spec fn edge_seq(self) -> Seq<Edge> {
        self.edges@
    }

    /// Well-formedness: distinct nodes, no self-loops, endpoints present,
    /// at most one edge per unordered node pair, and an exact capacity
    /// account that keeps the total bounded.
    pub open spec fn wf(self) -> bool {
        &&& (forall|i: int, j: int|
            0 <= i < j < self.nodes@.len() ==> self.nodes@[i] != self.nodes@[j])
        &&& (forall|k: int|
            0 <= k < self.edges@.len() ==> (#[trigger] self.edges@[k]).u != self.edges@[k].v)
        &&& (forall|k: int|
            0 <= k < self.edges@.len() ==> self.nodes@.contains((#[trigger] self.edges@[k]).u)
                && self.nodes@.contains(self.edges@[k].v))
        &&& (forall|k1: int, k2: int|
            0 <= k1 < k2 < self.edges@.len() ==> !edge_joins(
                #[trigger] self.edges@[k1],
                (#[trigger] self.edges@[k2]).u,
                self.edges@[k2].v,
            ))
        &&& self.cap_total == 2 * edge_cap_sum(self.edges@)
    }

    /// An empty graph.
    pub fn new() -> (g: CapacityGraph)
        ensures
            g.wf(),
            g.node_seq() == Seq::<u32>::empty(),
            g.edge_seq() == Seq::<Edge>::empty(),
    {
        let g = CapacityGraph { nodes: Vec::new(), edges: Vec::new(), cap_total: 0 };
        proof {
            assert(g.nodes@ =~= Seq::<u32>::empty());
            assert(g.edges@ =~= Seq::<Edge>::empty());
        }
        g
    }

    /// Whether `id` is a node of the graph.
    pub fn contains_node(&self, id: u32) -> (r: bool)
        ensures
            r == self.node_seq().contains(id),
    {
        let n = self.nodes.len();
        let mut i: usize = 0;
        while i < n
            invariant
                0 <= i <= n,
                n == self.nodes@.len(),
                forall|j: int| 0 <= j < i ==> self.nodes@[j] != id,
            decreases n - i,
        {
            if self.nodes[i] == id {
                return true;
            }
            i += 1;
        }
        false
    }

    /// The number of nodes.
    pub fn node_count(&self) -> (n: usize)
        ensures
            n == self.node_seq().len(),
    {
        self.nodes.len()
    }

    /// The number of edges.
    pub fn edge_count(&self) -> (n: usize)
        ensures
            n == self.edge_seq().len(),
    {
        self.edges.len()
    }

    /// The node at position `i` of the insertion order.
    pub fn node_at(&self, i: usize) -> (id: u32)
        requires
            i < self.node_seq().len(),
        ensures
            id == self.node_seq()[i as int],
    {
        self.nodes[i]
    }

    /// The edge at position `k` of the insertion order.
    pub fn edge_at(&self, k: usize) -> (e: Edge)
        requires
            k < self.edge_seq().len(),
        ensures
            e == self.edge_seq()[k as int],
    {
        self.edges[k]
    }

    /// Inserts a node. A node already present is left as it is.
    pub fn add_node(&mut self, id: u32) -> (added: bool)
        requires
            old(self).wf(),
        ensures
            final(self).wf(),
            final(self).edge_seq() == old(self).edge_seq(),
            added == !old(self).node_seq().contains(id),
            final(self).node_seq() == if added {
                old(self).node_seq().push(id)
            } else {
                old(self).node_seq()
            },
    {
        if self.contains_node(id) {
            return false;
        }
        self.nodes.push(id);
        proof {
            assert forall|i: int, j: int| 0 <= i < j < self.nodes@.len() implies self.nodes@[i]
                != self.nodes@[j] by {
                if j == self.nodes@.len() - 1 {
                    assert(!old(self).nodes@.contains(self.nodes@[j]));
                }
            }
            assert forall|w: u32| old(self).nodes@.contains(w) implies self.nodes@.contains(
                w,
            ) by {
                let i = choose|i: int| 0 <= i < old(self).nodes@.len() && old(self).nodes@[i] == w;
                assert(self.nodes@[i] == w);
            }
        }
        true
    }

    /// Position of the edge joining `u` and `v`, if one exists.
    fn find_edge(&self, u: u32, v: u32) -> (r: Option<usize>)
        ensures
            match r {
                Some(k) => k < self.edge_seq().len() && edge_joins(
                    self.edge_seq()[k as int],
                    u,
                    v,
                ),
                None => forall|k: int|
                    0 <= k < self.edge_seq().len() ==> !edge_joins(
                        #[trigger] self.edge_seq()[k],
                        u,
                        v,
                    ),
            },
    {
        let n = self.edges.len();
        let mut k: usize = 0;
        while k < n
            invariant
                0 <= k <= n,
                n == self.edges@.len(),
                forall|j: int| 0 <= j < k ==> !edge_joins(#[trigger] self.edges@[j], u, v),
            decreases n - k,
        {
            let e = self.edges[k];
            if (e.u == u && e.v == v) || (e.u == v && e.v == u) {
                return Some(k);
            }
            k += 1;
        }
        None
    }

    /// The capacity of the edge joining `u` and `v`, if one exists.
    pub fn edge_capacity(&self, u: u32, v: u32) -> (r: Option<u32>)
        requires
            self.wf(),
        ensures
            match r {
                Some(c) => exists|k: int|
                    0 <= k < self.edge_seq().len() && edge_joins(#[trigger] self.edge_seq()[k], u, v)
                        && self.edge_seq()[k].capacity == c,
                None => forall|k: int|
                    0 <= k < self.edge_seq().len() ==> !edge_joins(
                        #[trigger] self.edge_seq()[k],
                        u,
                        v,
                    ),
            },
    {
        match self.find_edge(u, v) {
            Some(k) => Some(self.edges[k].capacity),
            None => None,
        }
    }

    /// Inserts the undirected edge `{u, v}` with the given capacity, or
    /// replaces the capacity of the edge already joining `u` and `v`.
    ///
    /// Rejected inputs, checked in this order and leaving the graph
    /// unchanged: a self-loop (`InvalidCapacity`), an endpoint that is
    /// not a node (`InvalidEndpoint`), and a capacity that would push
    /// twice the graph's capacity sum above `u64::MAX`
    /// (`InvalidCapacity`).
    pub fn add_edge(&mut self, u: u32, v: u32, capacity: u32) -> (r: Result<(), MinCutError>)
        requires
            old(self).wf(),
        ensures
            final(self).wf(),
            final(self).node_seq() == old(self).node_seq(),
            match r {
                Ok(()) => {
                    let e = (Edge { u, v, capacity });
                    ||| (final(self).edge_seq() == old(self).edge_seq().push(e) && (forall|k: int|
                        0 <= k < old(self).edge_seq().len() ==> !edge_joins(
                            #[trigger] old(self).edge_seq()[k],
                            u,
                            v,
                        )))
                    ||| (exists|k: int|
                        0 <= k < old(self).edge_seq().len() && edge_joins(
                            #[trigger] old(self).edge_seq()[k],
                            u,
                            v,
                        ) && final(self).edge_seq() == old(self).edge_seq().update(
                            k,
                            (Edge {
                                u: old(self).edge_seq()[k].u,
                                v: old(self).edge_seq()[k].v,
                                capacity,
                            }),
                        ))
                },
                Err(MinCutError::InvalidCapacity) => final(self).edge_seq() == old(self).edge_seq() && (
                u == v || 2 * edge_cap_sum(old(self).edge_seq()) + 2 * capacity
                    - 2 * spec_replaced_cap(old(self).edge_seq(), u, v) > u64::MAX),
                Err(MinCutError::InvalidEndpoint) => final(self).edge_seq() == old(self).edge_seq() && u
                    != v && (!old(self).node_seq().contains(u) || !old(self).node_seq().contains(
                    v,
                )),
                Err(MinCutError::DegenerateQuery) => false,
            },
            r is Err ==> (u == v || !old(self).node_seq().contains(u)
                || !old(self).node_seq().contains(v) || 2 * edge_cap_sum(old(self).edge_seq()) + 2
                * capacity - 2 * spec_replaced_cap(old(self).edge_seq(), u, v) > u64::MAX),
            r is Ok ==> !(u == v || !old(self).node_seq().contains(u)
                || !old(self).node_seq().contains(v) || 2 * edge_cap_sum(old(self).edge_seq()) + 2
                * capacity - 2 * spec_replaced_cap(old(self).edge_seq(), u, v) > u64::MAX),
    {
        if u == v {
            return Err(MinCutError::InvalidCapacity);
        }
        if !self.contains_node(u) || !self.contains_node(v) {
            return Err(MinCutError::InvalidEndpoint);
        }
        proof {
            lemma_edge_cap_sum_nonneg(self.edges@);
        }
        match self.find_edge(u, v) {
            Some(k) => {
                let old_cap = self.edges[k].capacity;
                proof {
                    lemma_replaced_cap_found(self.edges@, u, v, k as int);
                    lemma_edge_cap_sum_at(self.edges@, k as int);
                }
                let freed: u64 = self.cap_total - 2 * (old_cap as u64);
                if 2 * (capacity as u64) > u64::MAX - freed {
                    return Err(MinCutError::InvalidCapacity);
                }
                let e0 = self.edges[k];
                let e = Edge { u: e0.u, v: e0.v, capacity };
                self.edges[k] = e;
                self.cap_total = freed + 2 * (capacity as u64);
                proof {
                    lemma_edge_cap_sum_update(old(self).edges@, k as int, e);
                    assert(forall|k2: int|
                        0 <= k2 < self.edges@.len() ==> self.nodes@.contains(
                            (#[trigger] self.edges@[k2]).u,
                        ) && self.nodes@.contains(self.edges@[k2].v));
                }
                Ok(())
            },
            None => {
                proof {
                    lemma_replaced_cap_none(self.edges@, u, v);
                }
                if 2 * (capacity as u64) > u64::MAX - self.cap_total {
                    return Err(MinCutError::InvalidCapacity);
                }
                let e = Edge { u, v, capacity };
                self.edges.push(e);
                self.cap_total = self.cap_total + 2 * (capacity as u64);
                proof {
                    assert(self.edges@.drop_last() =~= old(self).edges@);
                }
                Ok(())
            },
        }
    }
}

/// The capacity freed when the edge joining `u` and `v`, if any, is
/// replaced: the capacity it carried, or zero when no such edge exists.
pub open spec fn spec_replaced_cap(edges: Seq<Edge>, u: u32, v: u32) -> int {
    if exists|k: int| 0 <= k < edges.len() && edge_joins(#[trigger] edges[k], u, v) {
        edges[choose|k: int| 0 <= k < edges.len() && edge_joins(#[trigger] edges[k], u, v)].capacity as int
    } else {
        0
    }
}

proof fn lemma_replaced_cap_found(edges: Seq<Edge>, u: u32, v: u32, k: int)
    requires
        0 <= k < edges.len(),
        edge_joins(edges[k], u, v),
        forall|k1: int, k2: int|
            0 <= k1 < k2 < edges.len() ==> !edge_joins(
                #[trigger] edges[k1],
                (#[trigger] edges[k2]).u,
                edges[k2].v,
            ),
    ensures
        spec_replaced_cap(edges, u, v) == edges[k].capacity,
{
    let k2 = choose|k2: int| 0 <= k2 < edges.len() && edge_joins(#[trigger] edges[k2], u, v);
    if k2 != k {
        assert(edge_joins(edges[k], edges[k2].u, edges[k2].v) || edge_joins(
            edges[k2],
            edges[k].u,
            edges[k].v,
        ));
    }
}

proof fn lemma_replaced_cap_none(edges: Seq<Edge>, u: u32, v: u32)
    requires
        forall|k: int| 0 <= k < edges.len() ==> !edge_joins(#[trigger] edges[k], u, v),
    ensures
        spec_replaced_cap(edges, u, v) == 0,
{
}

} // verus!
