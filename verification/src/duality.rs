use vstd::prelude::*;

use crate::graph::Edge;
use crate::graph::cut_capacity;
use crate::residual::Arc;
use crate::residual::arcs_of_edges;
use crate::residual::bwd_arc;
use crate::residual::excess;
use crate::residual::flow_in;
use crate::residual::flow_out;
use crate::residual::fwd_arc;
use crate::residual::mate;
use crate::residual::same_shape;

verus! {

// Max-flow/min-cut duality, summed out: what a conserving flow delivers
// to the sink equals the net flow it sends across any separating node
// set, which is at most that set's cut capacity, with equality when
// every arc leaving the set is saturated.

/// Sum of the excesses of the listed nodes that lie outside `ss`.
pub open spec fn excess_sum_outside(ws: Seq<u32>, ss: Set<u32>, arcs: Seq<Arc>) -> int
    decreases ws.len(),
{
    if ws.len() == 0 {
        0
    } else {
        excess_sum_outside(ws.drop_last(), ss, arcs) + if !ss.contains(ws.last()) {
            excess(arcs, ws.last())
        } else {
            0
        }
    }
}

/// What one arc contributes to the inflow of the nodes outside `ss`.
pub open spec fn arc_flow_outside(a: Arc, ss: Set<u32>) -> int {
    (if !ss.contains(a.v) {
        a.flow as int
    } else {
        0
    }) - (if !ss.contains(a.u) {
        a.flow as int
    } else {
        0
    })
}

/// Net flow the arcs carry into the nodes outside `ss`.
pub open spec fn net_flow_outside(arcs: Seq<Arc>, ss: Set<u32>) -> int
    decreases arcs.len(),
{
    if arcs.len() == 0 {
        0
    } else {
        net_flow_outside(arcs.drop_last(), ss) + arc_flow_outside(arcs.last(), ss)
    }
}

/// A distinct list contains its last element exactly once.
proof fn lemma_distinct_last(ws: Seq<u32>)
    requires
        ws.len() >= 1,
        forall|i: int, j: int| 0 <= i < j < ws.len() ==> ws[i] != ws[j],
    ensures
        ws.contains(ws.last()),
        !ws.drop_last().contains(ws.last()),
        forall|x: u32| #[trigger] ws.contains(x) <==> (ws.drop_last().contains(x) || x
            == ws.last()),
        forall|i: int, j: int|
            0 <= i < j < ws.drop_last().len() ==> ws.drop_last()[i] != ws.drop_last()[j],
{
    let rest = ws.drop_last();
    let w = ws.last();
    assert(ws[ws.len() - 1] == w);
    if rest.contains(w) {
        let ix = choose|ix: int| 0 <= ix < rest.len() && rest[ix] == w;
        assert(ws[ix] == w);
        assert(false);
    }
    assert forall|x: u32| #[trigger] ws.contains(x) implies (rest.contains(x) || x == w) by {
        let ix = choose|ix: int| 0 <= ix < ws.len() && ws[ix] == x;
        if ix < ws.len() - 1 {
            assert(rest[ix] == x);
        }
    }
    assert forall|x: u32| (rest.contains(x) || x == w) implies ws.contains(x) by {
        if rest.contains(x) {
            let ix = choose|ix: int| 0 <= ix < rest.len() && rest[ix] == x;
            assert(ws[ix] == x);
        } else {
            assert(ws[ws.len() - 1] == x);
        }
    }
}

/// Appending one arc moves the outside excess sum by that arc's
/// contribution, provided the node list repeats nothing.
proof fn lemma_excess_sum_outside_push(ws: Seq<u32>, ss: Set<u32>, pre: Seq<Arc>, a: Arc)
    requires
        forall|i: int, j: int| 0 <= i < j < ws.len() ==> ws[i] != ws[j],
    ensures
        excess_sum_outside(ws, ss, pre.push(a)) == excess_sum_outside(ws, ss, pre) + (
        if ws.contains(a.v) && !ss.contains(a.v) {
            a.flow as int
        } else {
            0
        }) - (if ws.contains(a.u) && !ss.contains(a.u) {
            a.flow as int
        } else {
            0
        }),
    decreases ws.len(),
{
    let arcs = pre.push(a);
    assert(arcs.drop_last() =~= pre);
    assert(arcs.last() == a);
    if ws.len() == 0 {
        assert(!ws.contains(a.v));
        assert(!ws.contains(a.u));
    } else {
        let w = ws.last();
        let rest = ws.drop_last();
        lemma_distinct_last(ws);
        lemma_excess_sum_outside_push(rest, ss, pre, a);
        assert(flow_in(arcs, w) == flow_in(pre, w) + if a.v == w {
            a.flow as int
        } else {
            0
        });
        assert(flow_out(arcs, w) == flow_out(pre, w) + if a.u == w {
            a.flow as int
        } else {
            0
        });
    }
}

/// With no arcs there is nothing to sum.
proof fn lemma_excess_sum_outside_empty(ws: Seq<u32>, ss: Set<u32>, arcs: Seq<Arc>)
    requires
        arcs.len() == 0,
    ensures
        excess_sum_outside(ws, ss, arcs) == 0,
    decreases ws.len(),
{
    if ws.len() > 0 {
        lemma_excess_sum_outside_empty(ws.drop_last(), ss, arcs);
    }
}

/// Exchanging the two sums: over a duplicate-free node list that holds
/// every arc endpoint, the outside excess sum is the net flow into the
/// outside.
proof fn lemma_excess_sum_outside_eq_net(ws: Seq<u32>, ss: Set<u32>, arcs: Seq<Arc>)
    requires
        forall|i: int, j: int| 0 <= i < j < ws.len() ==> ws[i] != ws[j],
        forall|k: int|
            0 <= k < arcs.len() ==> ws.contains((#[trigger] arcs[k]).u) && ws.contains(arcs[k].v),
    ensures
        excess_sum_outside(ws, ss, arcs) == net_flow_outside(arcs, ss),
    decreases arcs.len(),
{
    if arcs.len() == 0 {
        lemma_excess_sum_outside_empty(ws, ss, arcs);
    } else {
        let pre = arcs.drop_last();
        let a = arcs.last();
        assert(arcs =~= pre.push(a));
        assert(forall|k: int|
            0 <= k < pre.len() ==> ws.contains((#[trigger] pre[k]).u) && ws.contains(pre[k].v));
        lemma_excess_sum_outside_eq_net(ws, ss, pre);
        lemma_excess_sum_outside_push(ws, ss, pre, a);
        assert(ws.contains(a.u) && ws.contains(a.v));
    }
}

/// Under flow conservation, the outside excess sum collapses to the
/// sink's excess: every other outside node contributes nothing.
proof fn lemma_excess_sum_outside_conserving(
    ws: Seq<u32>,
    ss: Set<u32>,
    arcs: Seq<Arc>,
    s: u32,
    t: u32,
)
    requires
        forall|i: int, j: int| 0 <= i < j < ws.len() ==> ws[i] != ws[j],
        forall|w: u32| w != s && w != t ==> excess(arcs, w) == 0,
        ss.contains(s),
        !ss.contains(t),
    ensures
        excess_sum_outside(ws, ss, arcs) == if ws.contains(t) {
            excess(arcs, t)
        } else {
            0
        },
    decreases ws.len(),
{
    if ws.len() == 0 {
        assert(!ws.contains(t));
    } else {
        let w = ws.last();
        let rest = ws.drop_last();
        lemma_distinct_last(ws);
        lemma_excess_sum_outside_conserving(rest, ss, arcs, s, t);
        if w != t && !ss.contains(w) {
            assert(w != s);
            assert(excess(arcs, w) == 0);
        }
    }
}

proof fn lemma_arcs_of_edges_even(edges: Seq<Edge>)
    ensures
        arcs_of_edges(edges).len() % 2 == 0,
    decreases edges.len(),
{
    if edges.len() > 0 {
        lemma_arcs_of_edges_even(edges.drop_last());
    }
}

/// When every arc leaving `ss` is saturated and opposing arcs do not
/// both carry flow, the net flow into the outside is exactly the cut
/// capacity of `ss`.
proof fn lemma_net_flow_outside_saturated(edges: Seq<Edge>, ss: Set<u32>, arcs: Seq<Arc>)
    requires
        same_shape(arcs_of_edges(edges), arcs),
        forall|k: int| 0 <= k < arcs.len() ==> (#[trigger] arcs[k]).flow <= arcs[k].capacity,
        forall|k: int|
            0 <= k < arcs.len() ==> (#[trigger] arcs[k]).flow == 0 || arcs[mate(k)].flow == 0,
        forall|k: int|
            0 <= k < arcs.len() && ss.contains((#[trigger] arcs[k]).u) && !ss.contains(arcs[k].v)
                ==> arcs[k].flow == arcs[k].capacity,
    ensures
        net_flow_outside(arcs, ss) == cut_capacity(edges, ss),
    decreases edges.len(),
{
    lemma_arcs_of_edges_even(edges.drop_last());
    if edges.len() == 0 {
        assert(arcs.len() == 0);
    } else {
        let e = edges.last();
        let pre_e = edges.drop_last();
        let aoe = arcs_of_edges(edges);
        let aoe_pre = arcs_of_edges(pre_e);
        if e.capacity > 0 && e.u != e.v {
            let m = arcs.len() as int;
            assert(aoe =~= aoe_pre + seq![fwd_arc(e), bwd_arc(e)]);
            assert(m == aoe_pre.len() + 2);
            let pre_a = arcs.subrange(0, m - 2);
            assert forall|k: int| 0 <= k < m - 2 implies aoe[k] == aoe_pre[k] by {}
            assert(same_shape(aoe_pre, pre_a));
            assert((m - 2) % 2 == 0);
            assert forall|k: int| 0 <= k < pre_a.len() implies (#[trigger] pre_a[k]).flow == 0
                || pre_a[mate(k)].flow == 0 by {
                assert(0 <= mate(k) < m - 2);
                assert(pre_a[k] == arcs[k] && pre_a[mate(k)] == arcs[mate(k)]);
            }
            lemma_net_flow_outside_saturated(pre_e, ss, pre_a);
            let d1 = arcs.drop_last();
            assert(d1.drop_last() =~= pre_a);
            let x1 = arcs[m - 2];
            let x2 = arcs[m - 1];
            assert(arcs.last() == x2);
            assert(d1.last() == x1);
            assert(aoe[m - 2] == fwd_arc(e) && aoe[m - 1] == bwd_arc(e));
            assert(x1.u == e.u && x1.v == e.v && x1.capacity == e.capacity);
            assert(x2.u == e.v && x2.v == e.u && x2.capacity == e.capacity);
            assert(net_flow_outside(arcs, ss) == net_flow_outside(d1, ss) + arc_flow_outside(
                x2,
                ss,
            ));
            assert(net_flow_outside(d1, ss) == net_flow_outside(pre_a, ss) + arc_flow_outside(
                x1,
                ss,
            ));
            assert(mate(m - 2) == m - 1 && mate(m - 1) == m - 2);
            assert(net_flow_outside(arcs, ss) == net_flow_outside(pre_a, ss) + arc_flow_outside(
                x1,
                ss,
            ) + arc_flow_outside(x2, ss));
            if ss.contains(e.u) && !ss.contains(e.v) {
                assert(x1.flow == x1.capacity);
                assert(x2.flow == 0);
            } else if !ss.contains(e.u) && ss.contains(e.v) {
                assert(x2.flow == x2.capacity);
                assert(x1.flow == 0);
            }
        } else {
            assert(aoe =~= aoe_pre);
            assert(same_shape(aoe_pre, arcs));
            lemma_net_flow_outside_saturated(pre_e, ss, arcs);
        }
    }
}

/// Weak duality, summed: with flows within their capacities, the net
/// flow into the outside of `ss` never exceeds the cut capacity of
/// `ss`, saturated or not.
proof fn lemma_net_flow_outside_le_cut(edges: Seq<Edge>, ss: Set<u32>, arcs: Seq<Arc>)
    requires
        same_shape(arcs_of_edges(edges), arcs),
        forall|k: int| 0 <= k < arcs.len() ==> (#[trigger] arcs[k]).flow <= arcs[k].capacity,
    ensures
        net_flow_outside(arcs, ss) <= cut_capacity(edges, ss),
    decreases edges.len(),
{
    if edges.len() == 0 {
        assert(arcs.len() == 0);
    } else {
        let e = edges.last();
        let pre_e = edges.drop_last();
        let aoe = arcs_of_edges(edges);
        let aoe_pre = arcs_of_edges(pre_e);
        if e.capacity > 0 && e.u != e.v {
            let m = arcs.len() as int;
            assert(aoe =~= aoe_pre + seq![fwd_arc(e), bwd_arc(e)]);
            assert(m == aoe_pre.len() + 2);
            let pre_a = arcs.subrange(0, m - 2);
            assert forall|k: int| 0 <= k < m - 2 implies aoe[k] == aoe_pre[k] by {}
            assert(same_shape(aoe_pre, pre_a));
            lemma_net_flow_outside_le_cut(pre_e, ss, pre_a);
            let d1 = arcs.drop_last();
            assert(d1.drop_last() =~= pre_a);
            let x1 = arcs[m - 2];
            let x2 = arcs[m - 1];
            assert(arcs.last() == x2);
            assert(d1.last() == x1);
            assert(aoe[m - 2] == fwd_arc(e) && aoe[m - 1] == bwd_arc(e));
            assert(x1.u == e.u && x1.v == e.v && x1.capacity == e.capacity);
            assert(x2.u == e.v && x2.v == e.u && x2.capacity == e.capacity);
            assert(net_flow_outside(arcs, ss) == net_flow_outside(d1, ss) + arc_flow_outside(
                x2,
                ss,
            ));
            assert(net_flow_outside(d1, ss) == net_flow_outside(pre_a, ss) + arc_flow_outside(
                x1,
                ss,
            ));
            assert(net_flow_outside(arcs, ss) == net_flow_outside(pre_a, ss) + arc_flow_outside(
                x1,
                ss,
            ) + arc_flow_outside(x2, ss));
        } else {
            assert(aoe =~= aoe_pre);
            assert(same_shape(aoe_pre, arcs));
            lemma_net_flow_outside_le_cut(pre_e, ss, arcs);
        }
    }
}

/// What a conserving, shape-true flow state delivers to the sink,
/// measured across any node set that keeps the source in and the sink
/// out: exactly the net flow into the outside, at most the cut
/// capacity, and exactly the cut capacity when the set is saturated
/// outward.
pub proof fn lemma_flow_across_cut(
    edges: Seq<Edge>,
    ws: Seq<u32>,
    ss: Set<u32>,
    arcs: Seq<Arc>,
    s: u32,
    t: u32,
)
    requires
        forall|i: int, j: int| 0 <= i < j < ws.len() ==> ws[i] != ws[j],
        forall|k: int|
            0 <= k < arcs.len() ==> ws.contains((#[trigger] arcs[k]).u) && ws.contains(arcs[k].v),
        same_shape(arcs_of_edges(edges), arcs),
        forall|k: int| 0 <= k < arcs.len() ==> (#[trigger] arcs[k]).flow <= arcs[k].capacity,
        forall|w: u32| w != s && w != t ==> excess(arcs, w) == 0,
        ss.contains(s),
        !ss.contains(t),
        ws.contains(t),
    ensures
        excess(arcs, t) <= cut_capacity(edges, ss),
        (forall|k: int|
            0 <= k < arcs.len() ==> (#[trigger] arcs[k]).flow == 0 || arcs[mate(k)].flow == 0)
            && (forall|k: int|
            0 <= k < arcs.len() && ss.contains((#[trigger] arcs[k]).u) && !ss.contains(arcs[k].v)
                ==> arcs[k].flow == arcs[k].capacity) ==> excess(arcs, t) == cut_capacity(
            edges,
            ss,
        ),
{
    lemma_excess_sum_outside_conserving(ws, ss, arcs, s, t);
    lemma_excess_sum_outside_eq_net(ws, ss, arcs);
    lemma_net_flow_outside_le_cut(edges, ss, arcs);
    if (forall|k: int|
        0 <= k < arcs.len() ==> (#[trigger] arcs[k]).flow == 0 || arcs[mate(k)].flow == 0) && (
    forall|k: int|
        0 <= k < arcs.len() && ss.contains((#[trigger] arcs[k]).u) && !ss.contains(arcs[k].v)
            ==> arcs[k].flow == arcs[k].capacity) {
        lemma_net_flow_outside_saturated(edges, ss, arcs);
    }
}

} // verus!
