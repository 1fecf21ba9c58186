use vstd::prelude::*;

use crate::errors::MinCutError;
use crate::duality::lemma_flow_across_cut;
use crate::graph::CapacityGraph;
use crate::graph::Edge;
use crate::graph::cut_capacity;
use crate::residual::Arc;
use crate::residual::ResidualNetwork;
use crate::residual::arcs_of_edges;
use crate::residual::fwd_arc;
use crate::residual::bwd_arc;
use crate::residual::lemma_arcs_of_edges_form;
use crate::residual::same_shape;
use crate::residual::mate;
use crate::residual::res_cap;
use crate::residual::excess;
use crate::residual::init_residual_network;
use crate::residual::lemma_flow_sums_nonneg;
use crate::residual::lemma_flow_in_le_cap_sum;
use crate::residual::lemma_arc_cap_sum_same_shape;
use crate::search::Layering;
use crate::search::search_layers;
use crate::search::dinitz_blocking_flow;
use crate::search::find_index;
use crate::search::layer_closure;
use crate::search::layer_parents_ok;
use crate::search::parent_edge_ok;
use crate::search::lemma_phase_deepens_layering;
use crate::search::target_leveled;
use crate::search::lvl_of;
use crate::search::lemma_lvl_of;

verus! {

/// One side of the cut: its nodes, and the edges of the input graph
/// whose endpoints both lie on this side. Edges crossing the partition
/// belong to neither side; they form the cut itself.
#[derive(Debug, PartialEq, Eq)]
pub struct CutSide {
    pub nodes: Vec<u32>,
    pub edges: Vec<Edge>,
}

/// A minimum cut: the maximum flow value and the two sides of the
/// partition it certifies.
#[derive(Debug, PartialEq, Eq)]
pub struct MinCutResult {
    pub flow_value: u64,
    pub source_side: CutSide,
    pub sink_side: CutSide,
}

/// Everything a successful query certifies, over a ghost final residual
/// state `arcs` and a ghost source-side node set `ss`: the residual
/// state has the shape of the graph's fresh network, respects every
/// capacity, conserves flow at all intermediate nodes, delivers exactly
/// `flow_value` to the sink, and admits no positive-residual arc out of
/// `ss`; the returned sides are the graph's nodes and induced edges
/// split along `ss`.
pub open spec fn min_cut_witness(
    g: CapacityGraph,
    source: u32,
    sink: u32,
    ss: Set<u32>,
    arcs: Seq<Arc>,
    res: MinCutResult,
) -> bool {
    &&& same_shape(arcs_of_edges(g.edge_seq()), arcs)
    &&& (forall|k: int| 0 <= k < arcs.len() ==> (#[trigger] arcs[k]).flow <= arcs[k].capacity)
    &&& arcs.len() % 2 == 0
    &&& (forall|k: int|
        0 <= k < arcs.len() ==> (#[trigger] arcs[k]).flow == 0 || arcs[mate(k)].flow == 0)
    &&& (forall|w: u32| w != source && w != sink ==> excess(arcs, w) == 0)
    &&& excess(arcs, source) == -excess(arcs, sink)
    &&& excess(arcs, sink) == res.flow_value
    &&& ss.contains(source)
    &&& !ss.contains(sink)
    &&& (forall|k: int|
        0 <= k < arcs.len() && res_cap(#[trigger] arcs[k]) > 0 && ss.contains(arcs[k].u)
            ==> ss.contains(arcs[k].v))
    &&& (forall|id: u32|
        res.source_side.nodes@.contains(id) <==> g.node_seq().contains(id) && ss.contains(id))
    &&& (forall|id: u32|
        res.sink_side.nodes@.contains(id) <==> g.node_seq().contains(id) && !ss.contains(id))
    &&& (forall|e: Edge|
        res.source_side.edges@.contains(e) <==> g.edge_seq().contains(e) && ss.contains(e.u)
            && ss.contains(e.v))
    &&& (forall|e: Edge|
        res.sink_side.edges@.contains(e) <==> g.edge_seq().contains(e) && !ss.contains(e.u)
            && !ss.contains(e.v))
}

/// Whether the inputs of a query are acceptable: both endpoints present
/// and distinct.
pub open spec fn query_ok(g: CapacityGraph, source: u32, sink: u32) -> bool {
    g.node_seq().contains(source) && g.node_seq().contains(sink) && source != sink
}

/// The outer driver: computes a fresh layering, runs a blocking-flow
/// phase against it, and repeats until the sink is unreachable. The
/// ghost phase counter certifies Dinitz's bound: the layering deepens
/// every round, so at most one phase runs per possible sink level.
#[verifier::rlimit(100)]
fn run_blocking_phases(r: &mut ResidualNetwork, source: u32, sink: u32, ti: usize) -> (out: (
    u64,
    Layering,
))
    requires
        old(r).wf(),
        old(r).nodes@.contains(source),
        old(r).nodes@.contains(sink),
        (ti as int) < old(r).nodes@.len(),
        old(r).nodes@[ti as int] == sink,
        source != sink,
        forall|w: u32| excess(old(r).arcs@, w) == 0,
    ensures
        final(r).wf(),
        final(r).nodes@ == old(r).nodes@,
        same_shape(old(r).arcs@, final(r).arcs@),
        forall|w: u32| w != source && w != sink ==> excess(final(r).arcs@, w) == 0,
        excess(final(r).arcs@, source) == -excess(final(r).arcs@, sink),
        excess(final(r).arcs@, sink) == out.0,
        out.1.sound_for(final(r).nodes@, final(r).arcs@, source),
        out.1.level@[ti as int] is None,
{
    let mut flow_value: u64 = 0;
    let mut lay = search_layers(r, source);
    let mut active = lay.level[ti].is_some();
    let ghost mut phase_count: int = 0;
    proof {
        if active {
            reveal(layer_parents_ok);
            assert(parent_edge_ok(r.nodes@, r.arcs@, lay.level@, lay.parent@, ti as int));
            let j = choose|j: int|
                0 <= j < r.nodes@.len() && r.nodes@[j] == r.arcs@[lay.parent@[ti as int]->0 as int].u
                    && (#[trigger] lay.level@[j]) is Some && lay.level@[j]->0 + 1
                    == lay.level@[ti as int]->0;
            assert(lay.level@[ti as int]->0 >= 1);
        }
    }
    while active
        invariant
            r.wf(),
            r.nodes@ == old(r).nodes@,
            same_shape(old(r).arcs@, r.arcs@),
            ti < r.nodes@.len(),
            r.nodes@[ti as int] == sink,
            r.nodes@.contains(source),
            r.nodes@.contains(sink),
            source != sink,
            forall|w: u32| w != source && w != sink ==> excess(r.arcs@, w) == 0,
            excess(r.arcs@, source) == -excess(r.arcs@, sink),
            excess(r.arcs@, sink) == flow_value,
            lay.sound_for(r.nodes@, r.arcs@, source),
            active == (lay.level@[ti as int] is Some),
            phase_count >= 0,
            phase_count <= r.nodes@.len() - 1,
            active ==> lay.level@[ti as int]->0 >= phase_count + 1,
        decreases arc_cap_sum_gap(r.arcs@, sink) + (if active {
            1int
        } else {
            0int
        }),
    {
        let ghost arcs_at_entry = r.arcs@;
        let ghost prev_lay = lay;
        proof {
            lemma_lvl_of(r.nodes@, lay.level@, ti as int);
        }
        let pushed = dinitz_blocking_flow(r, &lay, source, sink);
        proof {
            lemma_arc_cap_sum_same_shape(arcs_at_entry, r.arcs@);
            lemma_flow_sums_nonneg(r.arcs@, sink);
            lemma_flow_in_le_cap_sum(r.arcs@, sink);
            assert(pushed >= 1);
        }
        flow_value = flow_value + pushed;
        lay = search_layers(r, source);
        active = lay.level[ti].is_some();
        proof {
            lemma_flow_sums_nonneg(r.arcs@, sink);
            lemma_flow_in_le_cap_sum(r.arcs@, sink);
            phase_count = phase_count + 1;
            if active {
                // Dinitz's bound: the fresh layering levels the sink
                // strictly deeper than the one the phase just blocked.
                lemma_phase_deepens_layering(
                    r.nodes@,
                    arcs_at_entry,
                    r.arcs@,
                    source,
                    sink,
                    prev_lay,
                    lay,
                    ti as int,
                );
            }
        }
    }
    proof {
        // At most one blocking-flow phase per possible sink level: the
        // phase count stays below the number of nodes.
        assert(phase_count <= r.nodes@.len() - 1);
    }
    (flow_value, lay)
}

/// Computes the minimum cut between `source` and `sink`: builds the
/// residual network, saturates it by blocking-flow phases until the
/// sink is unreachable, and reads the partition off the final residual
/// reachability. Invalid queries are rejected before any computation.
#[verifier::rlimit(100)]
pub fn min_cut(g: &CapacityGraph, source: u32, sink: u32) -> (out: Result<
    MinCutResult,
    MinCutError,
>)
    requires
        g.wf(),
    ensures
        out is Ok <==> query_ok(*g, source, sink),
        out is Ok ==> exists|ss: Set<u32>, arcs: Seq<Arc>|
            min_cut_witness(*g, source, sink, ss, arcs, out->Ok_0) && out->Ok_0.flow_value
                == cut_capacity(g.edge_seq(), ss),
        out is Err ==> ((out->Err_0 == MinCutError::InvalidEndpoint && (!g.node_seq().contains(
            source,
        ) || !g.node_seq().contains(sink))) || (out->Err_0 == MinCutError::DegenerateQuery
            && g.node_seq().contains(source) && g.node_seq().contains(sink) && source == sink)),
{
    if !g.contains_node(source) || !g.contains_node(sink) {
        return Err(MinCutError::InvalidEndpoint);
    }
    if source == sink {
        return Err(MinCutError::DegenerateQuery);
    }
    let mut r = init_residual_network(g);
    let ti = find_index(&r.nodes, sink);
    proof {
        assert(same_shape(arcs_of_edges(g.edge_seq()), r.arcs@));
    }
    let ghost arcs_fresh = r.arcs@;
    let (flow_value, lay) = run_blocking_phases(&mut r, source, sink, ti);
    proof {
        assert forall|k: int| 0 <= k < r.arcs@.len() implies (#[trigger] arcs_of_edges(
            g.edge_seq(),
        )[k]).u == r.arcs@[k].u && arcs_of_edges(g.edge_seq())[k].v == r.arcs@[k].v
            && arcs_of_edges(g.edge_seq())[k].capacity == r.arcs@[k].capacity by {
            assert(arcs_fresh[k].u == r.arcs@[k].u && arcs_fresh[k].v == r.arcs@[k].v
                && arcs_fresh[k].capacity == r.arcs@[k].capacity);
        }
        assert(same_shape(arcs_of_edges(g.edge_seq()), r.arcs@));
    }
    // The sink is now unreachable: the discovered set of the last
    // layering is the source side of a minimum cut.
    let n = r.nodes.len();
    let ghost ss = Set::new(
        |id: u32|
            exists|i: int|
                0 <= i < r.nodes@.len() && (#[trigger] r.nodes@[i]) == id && lay.level@[i] is Some,
    );
    proof {
        assert forall|j: int| 0 <= j < n implies (ss.contains(r.nodes@[j]) == (
        #[trigger] lay.level@[j]) is Some) by {
            if ss.contains(r.nodes@[j]) {
                let i = choose|i: int|
                    0 <= i < r.nodes@.len() && (#[trigger] r.nodes@[i]) == r.nodes@[j]
                        && lay.level@[i] is Some;
                assert(i == j);
            }
            if lay.level@[j] is Some {
                assert(0 <= j < r.nodes@.len() && r.nodes@[j] == r.nodes@[j]
                    && lay.level@[j] is Some);
            }
        }
        let sidx = choose|i: int| 0 <= i < r.nodes@.len() && r.nodes@[i] == source;
        lemma_lvl_of(r.nodes@, lay.level@, sidx);
        assert(ss.contains(source));
        assert(!ss.contains(sink));
        reveal(crate::search::layer_closure);
        assert forall|k: int|
            0 <= k < r.arcs@.len() && res_cap(#[trigger] r.arcs@[k]) > 0 && ss.contains(
                r.arcs@[k].u,
            ) implies ss.contains(r.arcs@[k].v) by {
            let i = choose|i: int|
                0 <= i < r.nodes@.len() && (#[trigger] r.nodes@[i]) == r.arcs@[k].u
                    && lay.level@[i] is Some;
            assert(target_leveled(r.nodes@, r.arcs@, lay.level@, k, (lay.level@[i])->0 + 1));
            let j = choose|j: int| 0 <= j < r.nodes@.len() && r.nodes@[j] == r.arcs@[k].v;
            assert(lay.level@[j] is Some);
        }
    }
    let mut src_nodes: Vec<u32> = Vec::new();
    let mut snk_nodes: Vec<u32> = Vec::new();
    let mut i: usize = 0;
    while i < n
        invariant
            0 <= i <= n,
            r.wf(),
            n == r.nodes@.len(),
            lay.level@.len() == n,
            forall|j: int|
                0 <= j < n ==> (ss.contains(r.nodes@[j]) == (#[trigger] lay.level@[j]) is Some),
            forall|p: int|
                0 <= p < src_nodes@.len() ==> exists|j: int|
                    0 <= j < i && r.nodes@[j] == (#[trigger] src_nodes@[p]) && ss.contains(
                        src_nodes@[p],
                    ),
            forall|p: int|
                0 <= p < snk_nodes@.len() ==> exists|j: int|
                    0 <= j < i && r.nodes@[j] == (#[trigger] snk_nodes@[p]) && !ss.contains(
                        snk_nodes@[p],
                    ),
            forall|j: int|
                0 <= j < i && ss.contains(#[trigger] r.nodes@[j]) ==> src_nodes@.contains(
                    r.nodes@[j],
                ),
            forall|j: int|
                0 <= j < i && !ss.contains(#[trigger] r.nodes@[j]) ==> snk_nodes@.contains(
                    r.nodes@[j],
                ),
        decreases n - i,
    {
        let id = r.nodes[i];
        let ghost pre_src = src_nodes@;
        let ghost pre_snk = snk_nodes@;
        if lay.level[i].is_some() {
            src_nodes.push(id);
        } else {
            snk_nodes.push(id);
        }
        proof {
            assert forall|j: int| 0 <= j < i + 1 && ss.contains(
                #[trigger] r.nodes@[j],
            ) implies src_nodes@.contains(r.nodes@[j]) by {
                if j < i as int {
                    let p = choose|p: int| 0 <= p < pre_src.len() && pre_src[p] == r.nodes@[j];
                    assert(src_nodes@[p] == r.nodes@[j]);
                } else {
                    assert(src_nodes@[src_nodes@.len() - 1] == id);
                }
            }
            assert forall|j: int| 0 <= j < i + 1 && !ss.contains(
                #[trigger] r.nodes@[j],
            ) implies snk_nodes@.contains(r.nodes@[j]) by {
                if j < i as int {
                    let p = choose|p: int| 0 <= p < pre_snk.len() && pre_snk[p] == r.nodes@[j];
                    assert(snk_nodes@[p] == r.nodes@[j]);
                } else {
                    assert(snk_nodes@[snk_nodes@.len() - 1] == id);
                }
            }
        }
        i += 1;
    }
    let m = g.edge_count();
    let mut src_edges: Vec<Edge> = Vec::new();
    let mut snk_edges: Vec<Edge> = Vec::new();
    let mut k: usize = 0;
    while k < m
        invariant
            0 <= k <= m,
            g.wf(),
            r.wf(),
            r.nodes@ == g.node_seq(),
            n == r.nodes@.len(),
            lay.level@.len() == n,
            m == g.edge_seq().len(),
            forall|j: int|
                0 <= j < n ==> (ss.contains(r.nodes@[j]) == (#[trigger] lay.level@[j]) is Some),
            forall|p: int|
                0 <= p < src_edges@.len() ==> g.edge_seq().contains(#[trigger] src_edges@[p])
                    && ss.contains(src_edges@[p].u) && ss.contains(src_edges@[p].v),
            forall|p: int|
                0 <= p < snk_edges@.len() ==> g.edge_seq().contains(#[trigger] snk_edges@[p])
                    && !ss.contains(snk_edges@[p].u) && !ss.contains(snk_edges@[p].v),
            forall|j: int|
                0 <= j < k && ss.contains((#[trigger] g.edge_seq()[j]).u) && ss.contains(
                    g.edge_seq()[j].v,
                ) ==> src_edges@.contains(g.edge_seq()[j]),
            forall|j: int|
                0 <= j < k && !ss.contains((#[trigger] g.edge_seq()[j]).u) && !ss.contains(
                    g.edge_seq()[j].v,
                ) ==> snk_edges@.contains(g.edge_seq()[j]),
        decreases m - k,
    {
        let e = g.edge_at(k);
        let ui = find_index(&r.nodes, e.u);
        let vi = find_index(&r.nodes, e.v);
        let su = lay.level[ui].is_some();
        let sv = lay.level[vi].is_some();
        proof {
            assert(ss.contains(e.u) == su);
            assert(ss.contains(e.v) == sv);
            assert(g.edge_seq()[k as int] == e);
        }
        let ghost pre_src = src_edges@;
        let ghost pre_snk = snk_edges@;
        if su && sv {
            src_edges.push(e);
        } else if !su && !sv {
            snk_edges.push(e);
        }
        proof {
            assert forall|j: int|
                0 <= j < k + 1 && ss.contains((#[trigger] g.edge_seq()[j]).u) && ss.contains(
                    g.edge_seq()[j].v,
                ) implies src_edges@.contains(g.edge_seq()[j]) by {
                if j < k as int {
                    let p = choose|p: int|
                        0 <= p < pre_src.len() && pre_src[p] == g.edge_seq()[j];
                    assert(src_edges@[p] == g.edge_seq()[j]);
                } else {
                    assert(src_edges@[src_edges@.len() - 1] == e);
                }
            }
            assert forall|j: int|
                0 <= j < k + 1 && !ss.contains((#[trigger] g.edge_seq()[j]).u) && !ss.contains(
                    g.edge_seq()[j].v,
                ) implies snk_edges@.contains(g.edge_seq()[j]) by {
                if j < k as int {
                    let p = choose|p: int|
                        0 <= p < pre_snk.len() && pre_snk[p] == g.edge_seq()[j];
                    assert(snk_edges@[p] == g.edge_seq()[j]);
                } else {
                    assert(snk_edges@[snk_edges@.len() - 1] == e);
                }
            }
        }
        k += 1;
    }
    let res = MinCutResult {
        flow_value,
        source_side: CutSide { nodes: src_nodes, edges: src_edges },
        sink_side: CutSide { nodes: snk_nodes, edges: snk_edges },
    };
    proof {
        assert(res.source_side.nodes@ == src_nodes@ && res.sink_side.nodes@ == snk_nodes@);
        assert(res.source_side.edges@ == src_edges@ && res.sink_side.edges@ == snk_edges@);
        assert forall|id: u32| res.source_side.nodes@.contains(id) implies g.node_seq().contains(
            id,
        ) && ss.contains(id) by {
            let p = choose|p: int| 0 <= p < src_nodes@.len() && src_nodes@[p] == id;
            assert(0 <= p < src_nodes@.len());
            let j = choose|j: int|
                0 <= j < n && r.nodes@[j] == (#[trigger] src_nodes@[p]) && ss.contains(
                    src_nodes@[p],
                );
            assert(g.node_seq()[j] == id);
        }
        assert forall|id: u32| g.node_seq().contains(id) && ss.contains(id) implies
            res.source_side.nodes@.contains(id) by {
            let j = choose|j: int| 0 <= j < g.node_seq().len() && g.node_seq()[j] == id;
            assert(r.nodes@[j] == id);
            assert(ss.contains(r.nodes@[j]));
            assert(res.source_side.nodes@.contains(r.nodes@[j]));
        }
        assert forall|id: u32| res.sink_side.nodes@.contains(id) implies g.node_seq().contains(id)
            && !ss.contains(id) by {
            let p = choose|p: int| 0 <= p < snk_nodes@.len() && snk_nodes@[p] == id;
            assert(0 <= p < snk_nodes@.len());
            let j = choose|j: int|
                0 <= j < n && r.nodes@[j] == (#[trigger] snk_nodes@[p]) && !ss.contains(
                    snk_nodes@[p],
                );
            assert(g.node_seq()[j] == id);
        }
        assert forall|id: u32| g.node_seq().contains(id) && !ss.contains(id) implies
            res.sink_side.nodes@.contains(id) by {
            let j = choose|j: int| 0 <= j < g.node_seq().len() && g.node_seq()[j] == id;
            assert(r.nodes@[j] == id);
            assert(!ss.contains(r.nodes@[j]));
            assert(res.sink_side.nodes@.contains(r.nodes@[j]));
        }
        assert forall|e: Edge| g.edge_seq().contains(e) && ss.contains(e.u) && ss.contains(
            e.v,
        ) implies res.source_side.edges@.contains(e) by {
            let j = choose|j: int| 0 <= j < g.edge_seq().len() && g.edge_seq()[j] == e;
            assert(res.source_side.edges@.contains(g.edge_seq()[j]));
        }
        assert forall|e: Edge| g.edge_seq().contains(e) && !ss.contains(e.u) && !ss.contains(
            e.v,
        ) implies res.sink_side.edges@.contains(e) by {
            let j = choose|j: int| 0 <= j < g.edge_seq().len() && g.edge_seq()[j] == e;
            assert(res.sink_side.edges@.contains(g.edge_seq()[j]));
        }
        assert(min_cut_witness(*g, source, sink, ss, r.arcs@, res));
    }
    let out_val: Result<MinCutResult, MinCutError> = Ok(res);
    proof {
        assert(out_val is Ok);
        assert(min_cut_witness(*g, source, sink, ss, r.arcs@, out_val->Ok_0));
        lemma_max_flow_min_cut(*g, source, sink, ss, r.arcs@, out_val->Ok_0);
        assert(exists|ss2: Set<u32>, arcs2: Seq<Arc>|
            min_cut_witness(*g, source, sink, ss2, arcs2, out_val->Ok_0)
                && out_val->Ok_0.flow_value == cut_capacity(g.edge_seq(), ss2));
    }
    out_val
}

/// Every endpoint of the certified residual state is a node of the
/// graph, because its arcs mirror the graph's edges.
proof fn lemma_witness_endpoints(g: CapacityGraph, arcs: Seq<Arc>)
    requires
        g.wf(),
        same_shape(arcs_of_edges(g.edge_seq()), arcs),
    ensures
        forall|k: int|
            0 <= k < arcs.len() ==> g.node_seq().contains((#[trigger] arcs[k]).u)
                && g.node_seq().contains(arcs[k].v),
{
    lemma_arcs_of_edges_form(g.edge_seq());
    let aoe = arcs_of_edges(g.edge_seq());
    assert forall|k: int| 0 <= k < arcs.len() implies g.node_seq().contains(
        (#[trigger] arcs[k]).u,
    ) && g.node_seq().contains(arcs[k].v) by {
        let j = choose|j: int|
            0 <= j < g.edge_seq().len() && (((#[trigger] aoe[k]) == fwd_arc(
                #[trigger] g.edge_seq()[j],
            )) || (aoe[k] == bwd_arc(g.edge_seq()[j])));
        assert(g.node_seq().contains(g.edge_seq()[j].u));
        assert(g.node_seq().contains(g.edge_seq()[j].v));
        assert(arcs[k].u == aoe[k].u && arcs[k].v == aoe[k].v);
    }
}

/// Max-flow min-cut equality: the flow value a successful query
/// certifies equals the sum of the capacities of the graph's edges
/// crossing the returned partition.
pub proof fn lemma_max_flow_min_cut(
    g: CapacityGraph,
    source: u32,
    sink: u32,
    ss: Set<u32>,
    arcs: Seq<Arc>,
    res: MinCutResult,
)
    requires
        g.wf(),
        g.node_seq().contains(sink),
        min_cut_witness(g, source, sink, ss, arcs, res),
    ensures
        res.flow_value == cut_capacity(g.edge_seq(), ss),
{
    lemma_witness_endpoints(g, arcs);
    assert forall|k: int|
        0 <= k < arcs.len() && ss.contains((#[trigger] arcs[k]).u) && !ss.contains(
            arcs[k].v,
        ) implies arcs[k].flow == arcs[k].capacity by {
        if res_cap(arcs[k]) > 0 {
            assert(ss.contains(arcs[k].v));
        }
    }
    lemma_flow_across_cut(g.edge_seq(), g.node_seq(), ss, arcs, source, sink);
}

/// The flow value of a valid query is unique: any two certified
/// results of the same query agree on it, because each result's flow
/// fits under the other's cut (the partitions may differ only among
/// ties).
pub proof fn lemma_cut_value_unique(
    g: CapacityGraph,
    source: u32,
    sink: u32,
    ss1: Set<u32>,
    arcs1: Seq<Arc>,
    res1: MinCutResult,
    ss2: Set<u32>,
    arcs2: Seq<Arc>,
    res2: MinCutResult,
)
    requires
        g.wf(),
        g.node_seq().contains(sink),
        min_cut_witness(g, source, sink, ss1, arcs1, res1),
        min_cut_witness(g, source, sink, ss2, arcs2, res2),
    ensures
        res1.flow_value == res2.flow_value,
{
    lemma_max_flow_min_cut(g, source, sink, ss1, arcs1, res1);
    lemma_max_flow_min_cut(g, source, sink, ss2, arcs2, res2);
    lemma_witness_endpoints(g, arcs1);
    lemma_witness_endpoints(g, arcs2);
    lemma_flow_across_cut(g.edge_seq(), g.node_seq(), ss2, arcs1, source, sink);
    lemma_flow_across_cut(g.edge_seq(), g.node_seq(), ss1, arcs2, source, sink);
}

/// Partition completeness: the two sides of a successful query are
/// disjoint, together they hold exactly the graph's nodes, the source
/// is on the source side and the sink on the sink side.
pub proof fn lemma_partition_complete(
    g: CapacityGraph,
    source: u32,
    sink: u32,
    ss: Set<u32>,
    arcs: Seq<Arc>,
    res: MinCutResult,
)
    requires
        min_cut_witness(g, source, sink, ss, arcs, res),
        g.node_seq().contains(source),
        g.node_seq().contains(sink),
    ensures
        res.source_side.nodes@.contains(source),
        res.sink_side.nodes@.contains(sink),
        forall|id: u32|
            !(res.source_side.nodes@.contains(id) && res.sink_side.nodes@.contains(id)),
        forall|id: u32|
            g.node_seq().contains(id) <==> (res.source_side.nodes@.contains(id)
                || res.sink_side.nodes@.contains(id)),
{
    assert forall|id: u32| !(res.source_side.nodes@.contains(id)
        && res.sink_side.nodes@.contains(id)) by {
        if res.source_side.nodes@.contains(id) && res.sink_side.nodes@.contains(id) {
            let a = g.node_seq().contains(id);
            let b = ss.contains(id);
            assert(res.source_side.nodes@.contains(id) <==> (a && b));
            assert(res.sink_side.nodes@.contains(id) <==> (a && !b));
        }
    }
    assert forall|id: u32|
        g.node_seq().contains(id) <==> (res.source_side.nodes@.contains(id)
            || res.sink_side.nodes@.contains(id)) by {
        let a = g.node_seq().contains(id);
        let b = ss.contains(id);
        assert(res.source_side.nodes@.contains(id) <==> (a && b));
        assert(res.sink_side.nodes@.contains(id) <==> (a && !b));
    }
}

/// Flow conservation and the capacity bound on the certified final
/// residual state: every node other than the endpoints passes on
/// exactly what it receives, the sink receives exactly the returned
/// flow value, and no arc carries more than its capacity or less than
/// nothing.
pub proof fn lemma_flow_invariants(
    g: CapacityGraph,
    source: u32,
    sink: u32,
    ss: Set<u32>,
    arcs: Seq<Arc>,
    res: MinCutResult,
)
    requires
        min_cut_witness(g, source, sink, ss, arcs, res),
    ensures
        forall|w: u32| w != source && w != sink ==> excess(arcs, w) == 0,
        excess(arcs, sink) == res.flow_value,
        excess(arcs, source) == -(res.flow_value as int),
        forall|k: int|
            0 <= k < arcs.len() ==> 0 <= (#[trigger] arcs[k]).flow <= arcs[k].capacity,
{
}

/// How much capacity the network can still add to what already reaches
/// the sink; only used to bound the driver's iteration.
pub open spec fn arc_cap_sum_gap(arcs: Seq<Arc>, sink: u32) -> int {
    crate::residual::arc_cap_sum(arcs) - excess(arcs, sink)
}

} // verus!
