use vstd::prelude::*;

use crate::graph::CapacityGraph;
use crate::graph::Edge;
use crate::graph::edge_cap_sum;
use crate::graph::edge_joins;
use crate::graph::lemma_edge_cap_sum_nonneg;

verus! {

/// One directed arc of the residual network: a fixed capacity and a
/// mutable flow, with `0 <= flow <= capacity` throughout.
#[derive(Clone, Copy, Debug, PartialEq, Eq, Structural)]
pub struct Arc {
    pub u: u32,
    pub v: u32,
    pub capacity: u32,
    pub flow: u32,
}

/// Remaining pushable capacity of an arc.
pub open spec fn res_cap(a: Arc) -> int {
    a.capacity - a.flow
}

/// Arcs are stored in mirrored pairs; `mate(k)` is the index of the arc
/// opposing arc `k`.
pub open spec fn mate(k: int) -> int {
    if k % 2 == 0 {
        k + 1
    } else {
        k - 1
    }
}

/// The forward arc a capacity edge contributes.
pub open spec fn fwd_arc(e: Edge) -> Arc {
    Arc { u: e.u, v: e.v, capacity: e.capacity, flow: 0 }
}

/// The backward arc a capacity edge contributes: same capacity, not the
/// textbook zero-capacity reverse arc, so that the symmetric capacity of
/// an undirected edge stays explicit.
pub open spec fn bwd_arc(e: Edge) -> Arc {
    Arc { u: e.v, v: e.u, capacity: e.capacity, flow: 0 }
}

/// All arcs of a fresh residual network: two opposing arcs for every
/// edge of positive capacity that is not a self-loop, in edge order.
pub open spec fn arcs_of_edges(edges: Seq<Edge>) -> Seq<Arc>
    decreases edges.len(),
{
    if edges.len() == 0 {
        Seq::<Arc>::empty()
    } else {
        arcs_of_edges(edges.drop_last()) + (if edges.last().capacity > 0 && edges.last().u
            != edges.last().v {
            seq![fwd_arc(edges.last()), bwd_arc(edges.last())]
        } else {
            Seq::<Arc>::empty()
        })
    }
}

/// Same endpoints and capacities, arc by arc; only the flows may differ.
pub open spec fn same_shape(a: Seq<Arc>, b: Seq<Arc>) -> bool {
    &&& a.len() == b.len()
    &&& forall|k: int|
        0 <= k < a.len() ==> (#[trigger] a[k]).u == b[k].u && a[k].v == b[k].v && a[k].capacity
            == b[k].capacity
}

/// Total flow leaving node `w`.
pub open spec fn flow_out(arcs: Seq<Arc>, w: u32) -> int
    decreases arcs.len(),
{
    if arcs.len() == 0 {
        0
    } else {
        flow_out(arcs.drop_last(), w) + if arcs.last().u == w {
            arcs.last().flow as int
        } else {
            0
        }
    }
}

/// Total flow entering node `w`.
pub open spec fn flow_in(arcs: Seq<Arc>, w: u32) -> int
    decreases arcs.len(),
{
    if arcs.len() == 0 {
        0
    } else {
        flow_in(arcs.drop_last(), w) + if arcs.last().v == w {
            arcs.last().flow as int
        } else {
            0
        }
    }
}

/// Inflow minus outflow at node `w`: zero at every intermediate node,
/// the running flow value at the sink, its negation at the source.
pub open spec fn excess(arcs: Seq<Arc>, w: u32) -> int {
    flow_in(arcs, w) - flow_out(arcs, w)
}

/// Sum of all arc capacities.
pub open spec fn arc_cap_sum(arcs: Seq<Arc>) -> int
    decreases arcs.len(),
{
    if arcs.len() == 0 {
        0
    } else {
        arc_cap_sum(arcs.drop_last()) + arcs.last().capacity
    }
}

pub proof fn lemma_flow_out_update(arcs: Seq<Arc>, k: int, a: Arc, w: u32)
    requires
        0 <= k < arcs.len(),
        a.u == arcs[k].u,
        a.v == arcs[k].v,
    ensures
        flow_out(arcs.update(k, a), w) == flow_out(arcs, w) + if arcs[k].u == w {
            a.flow - arcs[k].flow
        } else {
            0
        },
    decreases arcs.len(),
{
    let upd = arcs.update(k, a);
    if k == arcs.len() - 1 {
        assert(upd.drop_last() =~= arcs.drop_last());
    } else {
        assert(upd.drop_last() =~= arcs.drop_last().update(k, a));
        lemma_flow_out_update(arcs.drop_last(), k, a, w);
    }
}

pub proof fn lemma_flow_in_update(arcs: Seq<Arc>, k: int, a: Arc, w: u32)
    requires
        0 <= k < arcs.len(),
        a.u == arcs[k].u,
        a.v == arcs[k].v,
    ensures
        flow_in(arcs.update(k, a), w) == flow_in(arcs, w) + if arcs[k].v == w {
            a.flow - arcs[k].flow
        } else {
            0
        },
    decreases arcs.len(),
{
    let upd = arcs.update(k, a);
    if k == arcs.len() - 1 {
        assert(upd.drop_last() =~= arcs.drop_last());
    } else {
        assert(upd.drop_last() =~= arcs.drop_last().update(k, a));
        lemma_flow_in_update(arcs.drop_last(), k, a, w);
    }
}

pub proof fn lemma_flow_sums_nonneg(arcs: Seq<Arc>, w: u32)
    ensures
        flow_out(arcs, w) >= 0,
        flow_in(arcs, w) >= 0,
    decreases arcs.len(),
{
    if arcs.len() > 0 {
        lemma_flow_sums_nonneg(arcs.drop_last(), w);
    }
}

pub proof fn lemma_arc_cap_sum_nonneg(arcs: Seq<Arc>)
    ensures
        arc_cap_sum(arcs) >= 0,
    decreases arcs.len(),
{
    if arcs.len() > 0 {
        lemma_arc_cap_sum_nonneg(arcs.drop_last());
    }
}

/// With every flow bounded by its capacity, the inflow of any node is
/// bounded by the total capacity.
pub proof fn lemma_flow_in_le_cap_sum(arcs: Seq<Arc>, w: u32)
    requires
        forall|k: int| 0 <= k < arcs.len() ==> (#[trigger] arcs[k]).flow <= arcs[k].capacity,
    ensures
        flow_in(arcs, w) <= arc_cap_sum(arcs),
    decreases arcs.len(),
{
    if arcs.len() > 0 {
        assert(arcs[arcs.len() - 1].flow <= arcs[arcs.len() - 1].capacity);
        lemma_flow_in_le_cap_sum(arcs.drop_last(), w);
    }
}

pub proof fn lemma_arc_cap_sum_same_shape(a: Seq<Arc>, b: Seq<Arc>)
    requires
        same_shape(a, b),
    ensures
        arc_cap_sum(a) == arc_cap_sum(b),
    decreases a.len(),
{
    if a.len() > 0 {
        assert(same_shape(a.drop_last(), b.drop_last()));
        lemma_arc_cap_sum_same_shape(a.drop_last(), b.drop_last());
    }
}

/// A residual network with all flows zero has zero excess everywhere.
pub proof fn lemma_zero_flows_zero_excess(arcs: Seq<Arc>, w: u32)
    requires
        forall|k: int| 0 <= k < arcs.len() ==> (#[trigger] arcs[k]).flow == 0,
    ensures
        flow_in(arcs, w) == 0,
        flow_out(arcs, w) == 0,
        excess(arcs, w) == 0,
    decreases arcs.len(),
{
    if arcs.len() > 0 {
        assert(arcs[arcs.len() - 1].flow == 0);
        lemma_zero_flows_zero_excess(arcs.drop_last(), w);
    }
}

/// The directed residual network derived from a capacity graph: every
/// undirected edge of positive capacity contributes a mirrored pair of
/// arcs, and flow is pushed in place during the blocking-flow phases.
pub struct ResidualNetwork {
    pub nodes: Vec<u32>,
    pub arcs: Vec<Arc>,
}

impl ResidualNetwork {
    /// Structural invariant: distinct nodes; arcs in mirrored pairs; no
    /// self-loop arcs; endpoints present; every flow within its
    /// capacity; of two opposing arcs at most one carries flow; no two
    /// arcs with the same ordered endpoints; and a bounded capacity sum
    /// so flow values fit in a `u64`.
    pub open spec fn wf(self) -> bool {
        &&& (forall|i: int, j: int|
            0 <= i < j < self.nodes@.len() ==> self.nodes@[i] != self.nodes@[j])
        &&& self.arcs@.len() % 2 == 0
        &&& (forall|k: int|
            0 <= k < self.arcs@.len() ==> {
                let m = #[trigger] mate(k);
                &&& 0 <= m < self.arcs@.len()
                &&& self.arcs@[m].u == self.arcs@[k].v
                &&& self.arcs@[m].v == self.arcs@[k].u
                &&& self.arcs@[m].capacity == self.arcs@[k].capacity
            })
        &&& (forall|k: int|
            0 <= k < self.arcs@.len() ==> (#[trigger] self.arcs@[k]).u != self.arcs@[k].v)
        &&& (forall|k: int|
            0 <= k < self.arcs@.len() ==> self.nodes@.contains((#[trigger] self.arcs@[k]).u)
                && self.nodes@.contains(self.arcs@[k].v))
        &&& (forall|k: int|
            0 <= k < self.arcs@.len() ==> (#[trigger] self.arcs@[k]).flow
                <= self.arcs@[k].capacity)
        &&& (forall|k: int|
            0 <= k < self.arcs@.len() ==> (#[trigger] self.arcs@[k]).flow == 0
                || self.arcs@[mate(k)].flow == 0)
        &&& (forall|k1: int, k2: int|
            0 <= k1 < k2 < self.arcs@.len() ==> !((#[trigger] self.arcs@[k1]).u == (
            #[trigger] self.arcs@[k2]).u && self.arcs@[k1].v == self.arcs@[k2].v))
        &&& arc_cap_sum(self.arcs@) <= u64::MAX
    }

    /// Flow conservation for a query from `s` to `t`: every other node
    /// passes on exactly what it receives, and what `t` has received is
    /// what `s` has sent.
    pub open spec fn conserving(self, s: u32, t: u32) -> bool {
        &&& (forall|w: u32| w != s && w != t ==> excess(self.arcs@, w) == 0)
        &&& excess(self.arcs@, s) == -excess(self.arcs@, t)
    }

    /// The flow currently arriving at `t`.
    pub open spec fn current_flow(self, t: u32) -> int {
        excess(self.arcs@, t)
    }

    /// Pushes `delta` along arc `k`, first cancelling flow on the
    /// opposing arc, then loading the arc itself with the rest; this
    /// keeps every flow within `0 ..= capacity`.
    fn push_on_arc(&mut self, k: usize, delta: u32)
        requires
            old(self).wf(),
            (k as int) < old(self).arcs@.len(),
            delta <= res_cap(old(self).arcs@[k as int]),
        ensures
            final(self).wf(),
            final(self).nodes@ == old(self).nodes@,
            same_shape(old(self).arcs@, final(self).arcs@),
            final(self).arcs@.len() == old(self).arcs@.len(),
            ({
                let a = old(self).arcs@[k as int];
                let b = old(self).arcs@[mate(k as int)];
                let c: int = if delta <= b.flow {
                    delta as int
                } else {
                    b.flow as int
                };
                &&& final(self).arcs@[k as int].flow == a.flow + delta - c
                &&& final(self).arcs@[mate(k as int)].flow == b.flow - c
                &&& (forall|k2: int|
                    0 <= k2 < old(self).arcs@.len() && k2 != k as int && k2 != mate(k as int)
                        ==> final(self).arcs@[k2] == old(self).arcs@[k2])
                &&& (forall|w: u32|
                    excess(final(self).arcs@, w) == excess(old(self).arcs@, w) + (if w == a.v {
                        delta as int
                    } else {
                        0
                    }) - (if w == a.u {
                        delta as int
                    } else {
                        0
                    }))
            }),
    {
        let m: usize = if k % 2 == 0 {
            k + 1
        } else {
            k - 1
        };
        proof {
            assert(m as int == mate(k as int));
        }
        let a = self.arcs[k];
        let b = self.arcs[m];
        let c: u32 = if delta <= b.flow {
            delta
        } else {
            b.flow
        };
        let a2 = Arc { u: a.u, v: a.v, capacity: a.capacity, flow: a.flow + (delta - c) };
        let b2 = Arc { u: b.u, v: b.v, capacity: b.capacity, flow: b.flow - c };
        let ghost arcs0 = self.arcs@;
        self.arcs[k] = a2;
        let ghost arcs1 = self.arcs@;
        self.arcs[m] = b2;
        proof {
            let ki = k as int;
            let mi = m as int;
            assert(arcs1 == arcs0.update(ki, a2));
            assert(self.arcs@ == arcs1.update(mi, b2));
            assert forall|w: u32|
                excess(self.arcs@, w) == excess(arcs0, w) + (if w == a.v {
                    delta as int
                } else {
                    0
                }) - (if w == a.u {
                    delta as int
                } else {
                    0
                }) by {
                lemma_flow_out_update(arcs0, ki, a2, w);
                lemma_flow_in_update(arcs0, ki, a2, w);
                lemma_flow_out_update(arcs1, mi, b2, w);
                lemma_flow_in_update(arcs1, mi, b2, w);
            }
            lemma_arc_cap_sum_same_shape(arcs0, self.arcs@);
            assert forall|k2: int| 0 <= k2 < self.arcs@.len() implies (
            #[trigger] self.arcs@[k2]).flow == 0 || self.arcs@[mate(k2)].flow == 0 by {
                assert(mate(mate(k2)) == k2);
                if k2 != ki && k2 != mi {
                    if mate(k2) != ki && mate(k2) != mi {
                        assert(self.arcs@[k2] == arcs0[k2]);
                    }
                }
            }
            assert(final(self).wf());
        }
    }
}

/// Whether consecutive path arcs share their inner node, so that the
/// arc sequence forms a walk through the network.
pub open spec fn path_connected(arcs: Seq<Arc>, path: Seq<usize>) -> bool {
    &&& path.len() >= 1
    &&& (forall|i: int| 0 <= i < path.len() ==> (#[trigger] path[i]) < arcs.len())
    &&& (forall|i: int|
        0 <= i < path.len() - 1 ==> arcs[#[trigger] path[i] as int].v == arcs[path[i + 1] as int].u)
}

/// The `i`-th node visited by the path, for `i` in `0 ..= path.len()`.
pub open spec fn path_node(arcs: Seq<Arc>, path: Seq<usize>, i: int) -> u32 {
    if i == 0 {
        arcs[path[0] as int].u
    } else {
        arcs[path[i - 1] as int].v
    }
}

/// No node is visited twice.
pub open spec fn path_nodes_distinct(arcs: Seq<Arc>, path: Seq<usize>) -> bool {
    forall|i: int, j: int|
        0 <= i < j <= path.len() ==> path_node(arcs, path, i) != path_node(arcs, path, j)
}

/// Every arc of the path still has at least `d` residual capacity.
pub open spec fn path_res_at_least(arcs: Seq<Arc>, path: Seq<usize>, d: int) -> bool {
    forall|i: int| 0 <= i < path.len() ==> res_cap(arcs[#[trigger] path[i] as int]) >= d
}

impl ResidualNetwork {
    /// Pushes `delta` units of flow along a whole augmenting path,
    /// updating each arc together with its opposing arc. Conservation is
    /// disturbed at no node: the excess moves from the path's first node
    /// to its last, and every intermediate node keeps what it had.
    pub fn push_augmenting_path(&mut self, path: &Vec<usize>, delta: u32)
        requires
            old(self).wf(),
            path_connected(old(self).arcs@, path@),
            path_nodes_distinct(old(self).arcs@, path@),
            path_res_at_least(old(self).arcs@, path@, delta as int),
            delta >= 1,
        ensures
            final(self).wf(),
            final(self).nodes@ == old(self).nodes@,
            same_shape(old(self).arcs@, final(self).arcs@),
            forall|w: u32|
                excess(final(self).arcs@, w) == excess(old(self).arcs@, w) + (if w == path_node(
                    old(self).arcs@,
                    path@,
                    path@.len() as int,
                ) {
                    delta as int
                } else {
                    0
                }) - (if w == path_node(old(self).arcs@, path@, 0) {
                    delta as int
                } else {
                    0
                }),
            forall|i: int|
                0 <= i < path@.len() ==> pair_pushed(
                    old(self).arcs@,
                    final(self).arcs@,
                    #[trigger] path@[i] as int,
                    delta as int,
                ),
            forall|k2: int|
                0 <= k2 < final(self).arcs@.len() && (forall|j: int|
                    0 <= j < path@.len() ==> #[trigger] path@[j] as int != k2 && mate(
                        path@[j] as int,
                    ) != k2) ==> final(self).arcs@[k2] == old(self).arcs@[k2],
    {
        let ghost arcs0 = self.arcs@;
        let n = path.len();
        let mut i: usize = 0;
        while i < n
            invariant
                self.wf(),
                n == path@.len(),
                0 <= i <= n,
                self.nodes@ == old(self).nodes@,
                same_shape(arcs0, self.arcs@),
                path_connected(arcs0, path@),
                path_nodes_distinct(arcs0, path@),
                path_res_at_least(arcs0, path@, delta as int),
                delta >= 1,
                forall|j: int|
                    i <= j < n ==> final_untouched(arcs0, self.arcs@, path@[j] as int),
                forall|j: int|
                    0 <= j < i ==> pair_pushed(arcs0, self.arcs@, #[trigger] path@[j] as int, delta as int),
                forall|k2: int|
                    0 <= k2 < self.arcs@.len() && (forall|j: int|
                        0 <= j < path@.len() ==> #[trigger] path@[j] as int != k2 && mate(
                            path@[j] as int,
                        ) != k2) ==> self.arcs@[k2] == arcs0[k2],
                forall|w: u32|
                    excess(self.arcs@, w) == excess(arcs0, w) + (if w == path_node(
                        arcs0,
                        path@,
                        i as int,
                    ) {
                        delta as int
                    } else {
                        0
                    }) - (if w == path_node(arcs0, path@, 0) {
                        delta as int
                    } else {
                        0
                    }),
            decreases n - i,
        {
            let k = path[i];
            let ghost ki = k as int;
            let ghost before = self.arcs@;
            proof {
                assert(final_untouched(arcs0, before, ki));
                assert(before[ki] == arcs0[ki]);
                assert(before[mate(ki)] == arcs0[mate(ki)]);
            }
            self.push_on_arc(k, delta);
            proof {
                let ii = i as int;
                // Later path arcs and their mates are other indices, so they
                // keep their flows: their end nodes differ from this pair's.
                assert forall|j: int| ii + 1 <= j < n implies final_untouched(
                    arcs0,
                    self.arcs@,
                    path@[j] as int,
                ) by {
                    let pj = path@[j] as int;
                    lemma_path_pair_disjoint(arcs0, path@, ii, j);
                    assert(self.arcs@[pj] == before[pj]);
                    assert(self.arcs@[mate(pj)] == before[mate(pj)]);
                }
                assert forall|j: int| 0 <= j < ii implies pair_pushed(
                    arcs0,
                    self.arcs@,
                    #[trigger] path@[j] as int,
                    delta as int,
                ) by {
                    let pj = path@[j] as int;
                    lemma_path_pair_disjoint(arcs0, path@, j, ii);
                    assert(mate(mate(pj)) == pj);
                    assert(mate(mate(ki)) == ki);
                    assert(self.arcs@[pj] == before[pj]);
                    assert(self.arcs@[mate(pj)] == before[mate(pj)]);
                }
                assert(pair_pushed(arcs0, self.arcs@, ki, delta as int));
                assert(path_node(arcs0, path@, ii) == arcs0[ki].u);
                assert(path_node(arcs0, path@, ii + 1) == arcs0[ki].v);
                assert(arcs0[ki].u == before[ki].u && arcs0[ki].v == before[ki].v);
            }
            i += 1;
        }
    }
}

/// Arc `k` took `d` more units of flow, cancelled first against its
/// mate: the mate lost `min(d, mate flow)` and the arc gained the rest.
pub open spec fn pair_pushed(orig: Seq<Arc>, cur: Seq<Arc>, k: int, d: int) -> bool {
    &&& 0 <= k < cur.len()
    &&& ({
        let c: int = if d <= orig[mate(k)].flow {
            d
        } else {
            orig[mate(k)].flow as int
        };
        &&& cur[k].flow == orig[k].flow + d - c
        &&& cur[mate(k)].flow == orig[mate(k)].flow - c
    })
}

/// Arc `k` and its mate hold the same flows in `cur` as in `orig`.
pub open spec fn final_untouched(orig: Seq<Arc>, cur: Seq<Arc>, k: int) -> bool {
    &&& 0 <= k < cur.len()
    &&& cur[k] == orig[k]
    &&& cur[mate(k)] == orig[mate(k)]
}

/// Two distinct positions of a node-distinct path use four distinct arc
/// indices between them and their mates.
proof fn lemma_path_pair_disjoint(arcs: Seq<Arc>, path: Seq<usize>, i: int, j: int)
    requires
        0 <= i < j < path.len(),
        path_connected(arcs, path),
        path_nodes_distinct(arcs, path),
        arcs.len() % 2 == 0,
        forall|k: int|
            0 <= k < arcs.len() ==> {
                let m = #[trigger] mate(k);
                &&& 0 <= m < arcs.len()
                &&& arcs[m].u == arcs[k].v
                &&& arcs[m].v == arcs[k].u
            },
    ensures
        path[i] as int != path[j] as int,
        mate(path[i] as int) != path[j] as int,
        path[i] as int != mate(path[j] as int),
        mate(path[i] as int) != mate(path[j] as int),
{
    let pi = path[i] as int;
    let pj = path[j] as int;
    assert(arcs[pi].u == path_node(arcs, path, i));
    assert(arcs[pi].v == path_node(arcs, path, i + 1));
    assert(arcs[pj].u == path_node(arcs, path, j));
    assert(arcs[pj].v == path_node(arcs, path, j + 1));
    if pi == pj {
        assert(path_node(arcs, path, i) == path_node(arcs, path, j));
        assert(false);
    }
    if mate(pi) == pj {
        assert(arcs[pj].u == arcs[pi].v);
        assert(arcs[pj].v == arcs[pi].u);
        if j == i + 1 {
            assert(path_node(arcs, path, i) == path_node(arcs, path, i + 2));
        } else {
            assert(path_node(arcs, path, i + 1) == path_node(arcs, path, j));
        }
        assert(false);
    }
    if pi == mate(pj) {
        assert(mate(mate(pj)) == pj);
        assert(arcs[pi].u == arcs[pj].v);
        assert(path_node(arcs, path, i) == path_node(arcs, path, j + 1));
        assert(false);
    }
    if mate(pi) == mate(pj) {
        assert(mate(mate(pi)) == pi);
        assert(mate(mate(pj)) == pj);
        assert(false);
    }
}

/// Builds the initial residual network of a capacity graph: every node
/// is copied, and every edge of positive capacity contributes the two
/// opposing arcs, each with the edge's capacity and zero flow.
pub fn init_residual_network(g: &CapacityGraph) -> (r: ResidualNetwork)
    requires
        g.wf(),
    ensures
        r.wf(),
        r.nodes@ == g.node_seq(),
        r.arcs@ == arcs_of_edges(g.edge_seq()),
        forall|w: u32| excess(r.arcs@, w) == 0,
        forall|s: u32, t: u32| r.conserving(s, t),
        arc_cap_sum(r.arcs@) == 2 * edge_cap_sum(g.edge_seq()),
{
    let node_count = g.node_count();
    let mut nodes: Vec<u32> = Vec::new();
    let mut i: usize = 0;
    while i < node_count
        invariant
            g.wf(),
            0 <= i <= node_count,
            node_count == g.node_seq().len(),
            nodes@ =~= g.node_seq().subrange(0, i as int),
        decreases node_count - i,
    {
        nodes.push(g.node_at(i));
        proof {
            assert(nodes@ =~= g.node_seq().subrange(0, i + 1));
        }
        i += 1;
    }
    proof {
        assert(nodes@ =~= g.node_seq());
    }
    let edge_count = g.edge_count();
    let mut arcs: Vec<Arc> = Vec::new();
    let mut k: usize = 0;
    while k < edge_count
        invariant
            g.wf(),
            0 <= k <= edge_count,
            edge_count == g.edge_seq().len(),
            arcs@ =~= arcs_of_edges(g.edge_seq().subrange(0, k as int)),
        decreases edge_count - k,
    {
        let e = g.edge_at(k);
        let ghost pre = g.edge_seq().subrange(0, k as int);
        if e.capacity > 0 {
            arcs.push(Arc { u: e.u, v: e.v, capacity: e.capacity, flow: 0 });
            arcs.push(Arc { u: e.v, v: e.u, capacity: e.capacity, flow: 0 });
        }
        proof {
            let cur = g.edge_seq().subrange(0, k + 1);
            assert(cur.drop_last() =~= pre);
            assert(cur.last() == e);
            assert(e.u != e.v);
            if e.capacity > 0 {
                assert(arcs@ =~= arcs_of_edges(pre) + seq![fwd_arc(e), bwd_arc(e)]);
            } else {
                assert(arcs@ =~= arcs_of_edges(pre) + Seq::<Arc>::empty());
            }
            assert(arcs@ =~= arcs_of_edges(cur));
        }
        k += 1;
    }
    proof {
        assert(g.edge_seq().subrange(0, g.edge_seq().len() as int) =~= g.edge_seq());
    }
    let r = ResidualNetwork { nodes, arcs };
    proof {
        lemma_arcs_of_edges_form(g.edge_seq());
        lemma_edge_cap_sum_nonneg(g.edge_seq());
        assert forall|k2: int| 0 <= k2 < r.arcs@.len() implies r.nodes@.contains(
            (#[trigger] r.arcs@[k2]).u,
        ) && r.nodes@.contains(r.arcs@[k2].v) by {
            let j = choose|j: int|
                0 <= j < g.edge_seq().len() && ((r.arcs@[k2] == fwd_arc(#[trigger] g.edge_seq()[j]))
                    || (r.arcs@[k2] == bwd_arc(g.edge_seq()[j])));
            assert(g.node_seq().contains(g.edge_seq()[j].u));
            assert(g.node_seq().contains(g.edge_seq()[j].v));
        }
        assert forall|w: u32| excess(r.arcs@, w) == 0 by {
            lemma_zero_flows_zero_excess(r.arcs@, w);
        }
        assert(r.wf());
    }
    r
}

/// Structure of the fresh arc sequence: mirrored pairs of zero-flow
/// arcs, one pair per edge of positive capacity, with distinct ordered
/// endpoint pairs, and a capacity sum of twice the edge capacity sum.
pub(crate) proof fn lemma_arcs_of_edges_form(edges: Seq<Edge>)
    requires
        forall|k: int| 0 <= k < edges.len() ==> (#[trigger] edges[k]).u != edges[k].v,
        forall|k1: int, k2: int|
            0 <= k1 < k2 < edges.len() ==> !edge_joins(
                #[trigger] edges[k1],
                (#[trigger] edges[k2]).u,
                edges[k2].v,
            ),
    ensures
        ({
            let a = arcs_of_edges(edges);
            &&& a.len() % 2 == 0
            &&& (forall|k: int|
                0 <= k < a.len() ==> {
                    let m = #[trigger] mate(k);
                    &&& 0 <= m < a.len()
                    &&& a[m].u == a[k].v
                    &&& a[m].v == a[k].u
                    &&& a[m].capacity == a[k].capacity
                })
            &&& (forall|k: int| 0 <= k < a.len() ==> (#[trigger] a[k]).flow == 0)
            &&& (forall|k: int| 0 <= k < a.len() ==> (#[trigger] a[k]).u != a[k].v)
            &&& (forall|k: int|
                0 <= k < a.len() ==> exists|j: int|
                    0 <= j < edges.len() && (((#[trigger] a[k]) == fwd_arc(#[trigger] edges[j]))
                        || (a[k] == bwd_arc(edges[j]))))
            &&& (forall|k1: int, k2: int|
                0 <= k1 < k2 < a.len() ==> !((#[trigger] a[k1]).u == (#[trigger] a[k2]).u
                    && a[k1].v == a[k2].v))
            &&& arc_cap_sum(a) == 2 * edge_cap_sum(edges)
        }),
    decreases edges.len(),
{
    let a = arcs_of_edges(edges);
    if edges.len() == 0 {
    } else {
        let prev = edges.drop_last();
        lemma_arcs_of_edges_form(prev);
        let b = arcs_of_edges(prev);
        let e = edges.last();
        assert forall|k: int| 0 <= k < b.len() implies exists|j: int|
            0 <= j < edges.len() && (((#[trigger] b[k]) == fwd_arc(#[trigger] edges[j])) || (b[k]
                == bwd_arc(edges[j]))) by {
            let j = choose|j: int|
                0 <= j < prev.len() && (((b[k]) == fwd_arc(#[trigger] prev[j])) || (b[k] == bwd_arc(
                    prev[j],
                )));
            assert(edges[j] == prev[j]);
            assert(0 <= j < edges.len() && ((b[k] == fwd_arc(edges[j])) || (b[k] == bwd_arc(
                edges[j],
            ))));
        }
        if e.capacity > 0 && e.u != e.v {
            let pair = seq![fwd_arc(e), bwd_arc(e)];
            assert(a =~= b + pair);
            let a1 = b + seq![fwd_arc(e)];
            assert(a.drop_last() =~= a1);
            assert(a1.drop_last() =~= b);
            assert(a.last() == bwd_arc(e));
            assert(a1.last() == fwd_arc(e));
            assert(arc_cap_sum(a) == arc_cap_sum(a.drop_last()) + e.capacity);
            assert(arc_cap_sum(a1) == arc_cap_sum(b) + e.capacity);
            assert(arc_cap_sum(a) == arc_cap_sum(b) + 2 * e.capacity);
            assert(a[a.len() - 2] == fwd_arc(e) && a[a.len() - 1] == bwd_arc(e));
            assert forall|k1: int, k2: int| 0 <= k1 < k2 < a.len() implies !((
            #[trigger] a[k1]).u == (#[trigger] a[k2]).u && a[k1].v == a[k2].v) by {
                if k2 < b.len() {
                } else if k1 >= b.len() {
                    assert(a[k1] == fwd_arc(e) && a[k2] == bwd_arc(e));
                } else {
                    let j = choose|j: int|
                        0 <= j < prev.len() && (((b[k1]) == fwd_arc(#[trigger] prev[j])) || (b[k1]
                            == bwd_arc(prev[j])));
                    assert(!edge_joins(edges[j], e.u, e.v));
                }
            }
            assert forall|k: int| 0 <= k < a.len() implies {
                let m = #[trigger] mate(k);
                &&& 0 <= m < a.len()
                &&& a[m].u == a[k].v
                &&& a[m].v == a[k].u
                &&& a[m].capacity == a[k].capacity
            } by {
                if k < b.len() {
                    assert(a[k] == b[k]);
                    assert(a[mate(k)] == b[mate(k)]);
                }
            }
        } else {
            assert(a =~= b);
            assert(e.capacity == 0);
        }
    }
}

} // verus!
