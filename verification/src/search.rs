use vstd::prelude::*;

use crate::residual::Arc;
use crate::residual::ResidualNetwork;
use crate::residual::res_cap;
use crate::residual::mate;
use crate::residual::excess;
use crate::residual::flow_in;
use crate::residual::flow_out;
use crate::residual::arc_cap_sum;
use crate::residual::same_shape;
use crate::residual::path_connected;
use crate::residual::path_node;
use crate::residual::path_nodes_distinct;
use crate::residual::path_res_at_least;
use crate::residual::pair_pushed;
use crate::residual::lemma_flow_sums_nonneg;
use crate::residual::lemma_flow_in_le_cap_sum;
use crate::residual::lemma_arc_cap_sum_same_shape;

verus! {

/// The level of a node identifier under a level assignment that is
/// indexed like the node list.
pub open spec fn lvl_of(nodes: Seq<u32>, level: Seq<Option<usize>>, id: u32) -> Option<usize> {
    if exists|i: int| 0 <= i < nodes.len() && nodes[i] == id {
        level[choose|i: int| 0 <= i < nodes.len() && nodes[i] == id]
    } else {
        None
    }
}

pub proof fn lemma_lvl_of(nodes: Seq<u32>, level: Seq<Option<usize>>, i: int)
    requires
        forall|i1: int, i2: int| 0 <= i1 < i2 < nodes.len() ==> nodes[i1] != nodes[i2],
        0 <= i < nodes.len(),
    ensures
        lvl_of(nodes, level, nodes[i]) == level[i],
{
    let j = choose|j: int| 0 <= j < nodes.len() && nodes[j] == nodes[i];
    assert(nodes[i] == nodes[i]);
    assert(0 <= j < nodes.len() && nodes[j] == nodes[i]);
    assert(j == i);
}

/// An arc that climbs exactly one level.
pub open spec fn arc_level_inc(nodes: Seq<u32>, level: Seq<Option<usize>>, a: Arc) -> bool {
    &&& lvl_of(nodes, level, a.u) is Some
    &&& lvl_of(nodes, level, a.v) is Some
    &&& lvl_of(nodes, level, a.v)->0 == lvl_of(nodes, level, a.u)->0 + 1
}

/// How many entries are still unassigned.
pub open spec fn none_count(s: Seq<Option<usize>>) -> int
    decreases s.len(),
{
    if s.len() == 0 {
        0
    } else {
        none_count(s.drop_last()) + if s.last() is None {
            1int
        } else {
            0int
        }
    }
}

proof fn lemma_none_count_nonneg(s: Seq<Option<usize>>)
    ensures
        none_count(s) >= 0,
    decreases s.len(),
{
    if s.len() > 0 {
        lemma_none_count_nonneg(s.drop_last());
    }
}

proof fn lemma_none_count_update(s: Seq<Option<usize>>, i: int, v: Option<usize>)
    requires
        0 <= i < s.len(),
        s[i] is None,
        v is Some,
    ensures
        none_count(s.update(i, v)) == none_count(s) - 1,
    decreases s.len(),
{
    let upd = s.update(i, v);
    if i == s.len() - 1 {
        assert(upd.drop_last() =~= s.drop_last());
    } else {
        assert(upd.drop_last() =~= s.drop_last().update(i, v));
        lemma_none_count_update(s.drop_last(), i, v);
    }
}

/// How many nodes are still unvisited.
pub open spec fn false_count(s: Seq<bool>) -> int
    decreases s.len(),
{
    if s.len() == 0 {
        0
    } else {
        false_count(s.drop_last()) + if s.last() {
            0int
        } else {
            1int
        }
    }
}

proof fn lemma_false_count_nonneg(s: Seq<bool>)
    ensures
        false_count(s) >= 0,
    decreases s.len(),
{
    if s.len() > 0 {
        lemma_false_count_nonneg(s.drop_last());
    }
}

proof fn lemma_false_count_update(s: Seq<bool>, i: int)
    requires
        0 <= i < s.len(),
        !s[i],
    ensures
        false_count(s.update(i, true)) == false_count(s) - 1,
    decreases s.len(),
{
    let upd = s.update(i, true);
    if i == s.len() - 1 {
        assert(upd.drop_last() =~= s.drop_last());
    } else {
        assert(upd.drop_last() =~= s.drop_last().update(i, true));
        lemma_false_count_update(s.drop_last(), i);
    }
}

proof fn lemma_false_count_monotone(a: Seq<bool>, b: Seq<bool>)
    requires
        a.len() == b.len(),
        forall|i: int| 0 <= i < a.len() && a[i] ==> b[i],
    ensures
        false_count(b) <= false_count(a),
    decreases a.len(),
{
    if a.len() > 0 {
        assert(forall|i: int|
            0 <= i < a.drop_last().len() && a.drop_last()[i] ==> b.drop_last()[i]);
        lemma_false_count_monotone(a.drop_last(), b.drop_last());
        assert(a[a.len() - 1] ==> b[a.len() - 1]);
    }
}

/// Position of a node identifier in the node list.
pub fn find_index(nodes: &Vec<u32>, id: u32) -> (i: usize)
    requires
        nodes@.contains(id),
    ensures
        i < nodes@.len(),
        nodes@[i as int] == id,
{
    let n = nodes.len();
    let mut i: usize = 0;
    while i < n
        invariant
            0 <= i <= n,
            n == nodes@.len(),
            forall|j: int| 0 <= j < i ==> nodes@[j] != id,
        decreases n - i,
    {
        if nodes[i] == id {
            return i;
        }
        i += 1;
    }
    proof {
        let j = choose|j: int| 0 <= j < nodes@.len() && nodes@[j] == id;
        assert(false);
    }
    0
}

fn vec_of_none(n: usize) -> (out: Vec<Option<usize>>)
    ensures
        out@.len() == n,
        forall|i: int| 0 <= i < n ==> out@[i] is None,
        none_count(out@) == n,
{
    let mut out: Vec<Option<usize>> = Vec::new();
    let mut i: usize = 0;
    while i < n
        invariant
            0 <= i <= n,
            out@.len() == i,
            forall|j: int| 0 <= j < i ==> out@[j] is None,
            none_count(out@) == i,
        decreases n - i,
    {
        let ghost pre = out@;
        out.push(None);
        proof {
            assert(out@.drop_last() =~= pre);
        }
        i += 1;
    }
    out
}

fn vec_of_false(n: usize) -> (out: Vec<bool>)
    ensures
        out@.len() == n,
        forall|i: int| 0 <= i < n ==> !out@[i],
        false_count(out@) == n,
{
    let mut out: Vec<bool> = Vec::new();
    let mut i: usize = 0;
    while i < n
        invariant
            0 <= i <= n,
            out@.len() == i,
            forall|j: int| 0 <= j < i ==> !out@[j],
            false_count(out@) == i,
        decreases n - i,
    {
        let ghost pre = out@;
        out.push(false);
        proof {
            assert(out@.drop_last() =~= pre);
        }
        i += 1;
    }
    out
}

/// The outcome of one breadth-first layering pass: the level of every
/// discovered node and the arc through which it was first discovered,
/// both indexed like the network's node list.
pub struct Layering {
    pub level: Vec<Option<usize>>,
    pub parent: Vec<Option<usize>>,
}

/// The discovery arc recorded for node index `i`: it has positive
/// residual capacity, ends at that node, and starts one level earlier.
pub open spec fn parent_edge_ok(
    nodes: Seq<u32>,
    arcs: Seq<Arc>,
    level: Seq<Option<usize>>,
    parent: Seq<Option<usize>>,
    i: int,
) -> bool {
    &&& parent[i] is Some
    &&& (parent[i]->0 as int) < arcs.len()
    &&& arcs[parent[i]->0 as int].v == nodes[i]
    &&& res_cap(arcs[parent[i]->0 as int]) > 0
    &&& exists|j: int|
        0 <= j < nodes.len() && nodes[j] == arcs[parent[i]->0 as int].u && (
        #[trigger] level[j]) is Some && level[j]->0 + 1 == level[i]->0
}

/// Every discovered node except the source carries a valid discovery arc.
#[verifier::opaque]
pub open spec fn layer_parents_ok(
    nodes: Seq<u32>,
    arcs: Seq<Arc>,
    level: Seq<Option<usize>>,
    parent: Seq<Option<usize>>,
    source: u32,
) -> bool {
    forall|i: int|
        0 <= i < nodes.len() && (#[trigger] level[i]) is Some && nodes[i] != source
            ==> parent_edge_ok(nodes, arcs, level, parent, i)
}

/// Whichever node index holds the head of arc `k` is discovered.
pub open spec fn target_leveled(
    nodes: Seq<u32>,
    arcs: Seq<Arc>,
    level: Seq<Option<usize>>,
    k: int,
    b: int,
) -> bool {
    forall|j: int|
        0 <= j < nodes.len() && nodes[j] == arcs[k].v ==> (#[trigger] level[j]) is Some
            && level[j]->0 <= b
}

/// No arc of positive residual capacity leaves the discovered set, and
/// no such arc climbs more than one level: together with the discovery
/// arcs this pins every level to the least number of positive-residual
/// arcs on any path from the source.
#[verifier::opaque]
pub open spec fn layer_closure(nodes: Seq<u32>, arcs: Seq<Arc>, level: Seq<Option<usize>>) -> bool {
    forall|k: int, i: int|
        0 <= k < arcs.len() && 0 <= i < nodes.len() && (#[trigger] arcs[k]).u == #[trigger] nodes[i]
            && res_cap(arcs[k]) > 0 && level[i] is Some ==> target_leveled(
            nodes,
            arcs,
            level,
            k,
            level[i]->0 + 1,
        )
}

/// Queue discipline of the pass: entries are discovered node indices,
/// each enqueued once, with levels bounded by queue position and
/// non-decreasing along the queue.
#[verifier::opaque]
pub open spec fn bfs_queue_ok(level: Seq<Option<usize>>, queue: Seq<usize>, n: int) -> bool {
    &&& (forall|p: int|
        0 <= p < queue.len() ==> (#[trigger] queue[p] as int) < n && level[queue[p] as int] is Some
            && (level[queue[p] as int])->0 <= p)
    &&& (forall|p1: int, p2: int| 0 <= p1 < p2 < queue.len() ==> queue[p1] != queue[p2])
    &&& (forall|p1: int, p2: int|
        0 <= p1 <= p2 < queue.len() ==> (level[#[trigger] queue[p1] as int])->0 <= (level[
            #[trigger] queue[p2] as int])->0)
}

/// The last enqueued node is at most one level above the node whose
/// arcs are being scanned.
pub open spec fn bfs_frontier_ok(level: Seq<Option<usize>>, queue: Seq<usize>, h: int) -> bool {
    h < queue.len() ==> (level[queue[queue.len() - 1] as int])->0 <= (level[queue[h] as int])->0
        + 1
}

/// Every discovered node index is in the queue.
#[verifier::opaque]
pub open spec fn bfs_covered(level: Seq<Option<usize>>, queue: Seq<usize>, n: int) -> bool {
    forall|i: int| 0 <= i < n && (#[trigger] level[i]) is Some ==> queue.contains(i as usize)
}

/// Closure established for the first `h` queue entries.
#[verifier::opaque]
pub open spec fn bfs_closed_upto(
    nodes: Seq<u32>,
    arcs: Seq<Arc>,
    level: Seq<Option<usize>>,
    queue: Seq<usize>,
    h: int,
) -> bool {
    forall|p: int, k: int|
        0 <= p < h && 0 <= k < arcs.len() && (#[trigger] arcs[k]).u == nodes[#[trigger] queue[
            p] as int] && res_cap(arcs[k]) > 0 ==> target_leveled(
            nodes,
            arcs,
            level,
            k,
            (level[queue[p] as int])->0 + 1,
        )
}

/// Closure established for the first `upto` arcs out of one node.
#[verifier::opaque]
pub open spec fn bfs_node_closed(
    nodes: Seq<u32>,
    arcs: Seq<Arc>,
    level: Seq<Option<usize>>,
    u_id: u32,
    lu: int,
    upto: int,
) -> bool {
    forall|k: int|
        0 <= k < upto && (#[trigger] arcs[k]).u == u_id && res_cap(arcs[k]) > 0 ==> target_leveled(
            nodes,
            arcs,
            level,
            k,
            lu + 1,
        )
}

impl Layering {
    /// Sizes and level bounds that stay meaningful while the network's
    /// flows change under this fixed layering.
    pub open spec fn consistent(self, nodes: Seq<u32>) -> bool {
        &&& self.level@.len() == nodes.len()
        &&& self.parent@.len() == nodes.len()
        &&& forall|i: int|
            0 <= i < nodes.len() && self.level@[i] is Some ==> (#[trigger] self.level@[i])->0
                < nodes.len()
    }

    /// Everything the layering pass guarantees about the arcs it was
    /// computed from: the source sits at level zero, every discovered
    /// node other than the source has a discovery arc coming down from
    /// the previous level, and no positive-residual arc leaves the
    /// discovered set or climbs more than one level. The discovery arcs
    /// give a path of exactly `level` arcs and the closure bound rules
    /// out any shorter one, so each level is the first (minimum)
    /// breadth-first distance from the source.
    pub open spec fn sound_for(self, nodes: Seq<u32>, arcs: Seq<Arc>, source: u32) -> bool {
        &&& self.consistent(nodes)
        &&& lvl_of(nodes, self.level@, source) == Some(0usize)
        &&& layer_parents_ok(nodes, arcs, self.level@, self.parent@, source)
        &&& layer_closure(nodes, arcs, self.level@)
    }
}

/// Breadth-first layering of the residual network from `source`,
/// following only arcs with positive residual capacity: every discovered
/// node gets the level at which it was first seen and the arc that
/// discovered it. Nodes left without a level are exactly those the
/// search cannot reach.
#[verifier::rlimit(100)]
pub fn search_layers(r: &ResidualNetwork, source: u32) -> (lay: Layering)
    requires
        r.wf(),
        r.nodes@.contains(source),
    ensures
        lay.sound_for(r.nodes@, r.arcs@, source),
{
    let n = r.nodes.len();
    let mut level: Vec<Option<usize>> = vec_of_none(n);
    let mut parent: Vec<Option<usize>> = vec_of_none(n);
    let si = find_index(&r.nodes, source);
    let ghost level_seed = level@;
    level[si] = Some(0);
    proof {
        lemma_none_count_update(level_seed, si as int, Some(0usize));
    }
    let mut queue: Vec<usize> = Vec::new();
    queue.push(si);
    proof {
        reveal(bfs_queue_ok);
        reveal(bfs_covered);
        reveal(layer_parents_ok);
        reveal(bfs_closed_upto);
        assert(queue@[0] == si);
        assert forall|i: int| 0 <= i < n && (#[trigger] level@[i]) is Some implies queue@.contains(
            i as usize,
        ) by {
            assert(i == si as int);
            assert(queue@[0] == i as usize);
        }
    }
    let mut h: usize = 0;
    while h < queue.len()
        invariant
            r.wf(),
            r.nodes@.len() == n,
            level@.len() == n,
            parent@.len() == n,
            si < n,
            r.nodes@[si as int] == source,
            level@[si as int] == Some(0usize),
            h <= queue.len(),
            queue.len() == n - none_count(level@),
            bfs_queue_ok(level@, queue@, n as int),
            bfs_covered(level@, queue@, n as int),
            bfs_frontier_ok(level@, queue@, h as int),
            layer_parents_ok(r.nodes@, r.arcs@, level@, parent@, source),
            bfs_closed_upto(r.nodes@, r.arcs@, level@, queue@, h as int),
        decreases n - h,
    {
        let ui = queue[h];
        proof {
            reveal(bfs_queue_ok);
            lemma_none_count_nonneg(level@);
        }
        let u_id = r.nodes[ui];
        let lu = match level[ui] {
            Some(l) => l,
            None => {
                proof {
                    assert(false);
                }
                0
            },
        };
        let arc_total = r.arcs.len();
        let mut k: usize = 0;
        proof {
            reveal(bfs_node_closed);
        }
        while k < arc_total
            invariant
                r.wf(),
                r.nodes@.len() == n,
                level@.len() == n,
                parent@.len() == n,
                si < n,
                r.nodes@[si as int] == source,
                level@[si as int] == Some(0usize),
                arc_total == r.arcs@.len(),
                h < queue.len(),
                queue@[h as int] == ui,
                ui < n,
                u_id == r.nodes@[ui as int],
                level@[ui as int] == Some(lu),
                lu <= h,
                queue.len() == n - none_count(level@),
                bfs_queue_ok(level@, queue@, n as int),
                bfs_covered(level@, queue@, n as int),
                bfs_frontier_ok(level@, queue@, h as int),
                layer_parents_ok(r.nodes@, r.arcs@, level@, parent@, source),
                bfs_closed_upto(r.nodes@, r.arcs@, level@, queue@, h as int),
                bfs_node_closed(r.nodes@, r.arcs@, level@, u_id, lu as int, k as int),
            decreases arc_total - k,
        {
            let a = r.arcs[k];
            let ghost pre_level = level@;
            let ghost pre_queue = queue@;
            if a.u == u_id && a.capacity > a.flow {
                let vi = find_index(&r.nodes, a.v);
                if level[vi].is_none() {
                    proof {
                        reveal(bfs_queue_ok);
                        lemma_none_count_nonneg(pre_level);
                        assert(queue@.len() <= n);
                        assert(lu + 1 <= n);
                    }
                    level[vi] = Some(lu + 1);
                    parent[vi] = Some(k);
                    queue.push(vi);
                    proof {
                        lemma_none_count_update(pre_level, vi as int, Some((lu + 1) as usize));
                        let lv = level@;
                        let qv = queue@;
                        reveal(bfs_queue_ok);
                        reveal(bfs_covered);
                        reveal(layer_parents_ok);
                        reveal(bfs_closed_upto);
                        reveal(bfs_node_closed);
                        // queue discipline
                        assert forall|p: int| 0 <= p < qv.len() implies (#[trigger] qv[p] as int)
                            < n && lv[qv[p] as int] is Some && (lv[qv[p] as int])->0 <= p by {
                            if p < pre_queue.len() {
                                assert(qv[p] == pre_queue[p]);
                                assert(pre_queue[p] as int != vi as int);
                            } else {
                                assert(qv[p] == vi);
                            }
                        }
                        assert forall|p1: int, p2: int| 0 <= p1 < p2 < qv.len() implies qv[p1]
                            != qv[p2] by {
                            if p2 == qv.len() - 1 {
                                assert(pre_level[pre_queue[p1] as int] is Some);
                            }
                        }
                        assert forall|p1: int, p2: int| 0 <= p1 <= p2 < qv.len() implies (lv[
                            #[trigger] qv[p1] as int])->0 <= (lv[#[trigger] qv[p2] as int])->0 by {
                            if p2 == qv.len() - 1 && p1 < p2 {
                                assert(qv[p1] == pre_queue[p1]);
                                assert(pre_queue[p1] as int != vi as int);
                                assert((pre_level[pre_queue[p1] as int])->0 <= (pre_level[
                                    pre_queue[pre_queue.len() - 1] as int])->0);
                                assert((pre_level[pre_queue[pre_queue.len() - 1] as int])->0 <= (
                                pre_level[pre_queue[h as int] as int])->0 + 1);
                                assert(pre_queue[h as int] == ui);
                            } else if p2 < qv.len() - 1 {
                                assert(qv[p1] == pre_queue[p1] && qv[p2] == pre_queue[p2]);
                                assert(pre_queue[p1] as int != vi as int);
                                assert(pre_queue[p2] as int != vi as int);
                            }
                        }
                        assert(bfs_queue_ok(lv, qv, n as int));
                        assert(qv[h as int] == ui && ui as int != vi as int);
                        assert((lv[qv[qv.len() - 1] as int])->0 <= (lv[qv[h as int] as int])->0
                            + 1);
                        assert(bfs_frontier_ok(lv, qv, h as int));
                        // coverage
                        assert forall|i: int| 0 <= i < n && (#[trigger] lv[i]) is Some implies
                            qv.contains(i as usize) by {
                            if i == vi as int {
                                assert(qv[qv.len() - 1] == i as usize);
                            } else {
                                assert(pre_queue.contains(i as usize));
                                let p = choose|p: int|
                                    0 <= p < pre_queue.len() && pre_queue[p] == i as usize;
                                assert(qv[p] == i as usize);
                            }
                        }
                        assert(bfs_covered(lv, qv, n as int));
                        // parent validity
                        assert forall|i: int|
                            0 <= i < n && (#[trigger] lv[i]) is Some && r.nodes@[i] != source
                                implies parent_edge_ok(r.nodes@, r.arcs@, lv, parent@, i) by {
                            if i == vi as int {
                                assert(0 <= ui < n && r.nodes@[ui as int] == r.arcs@[k as int].u
                                    && lv[ui as int] is Some && lv[ui as int]->0 + 1
                                    == lv[vi as int]->0);
                            } else {
                                assert(parent_edge_ok(r.nodes@, r.arcs@, pre_level, parent@, i));
                                let pk = parent@[i]->0;
                                let j = choose|j: int|
                                    0 <= j < n && r.nodes@[j] == r.arcs@[pk as int].u && (
                                    #[trigger] pre_level[j]) is Some && pre_level[j]->0 + 1
                                        == pre_level[i]->0;
                                assert(lv[j] is Some && lv[j]->0 + 1 == lv[i]->0);
                            }
                        }
                        assert(layer_parents_ok(r.nodes@, r.arcs@, lv, parent@, source));
                        // closure so far survives new levels and entries
                        assert forall|p: int, k2: int|
                            0 <= p < h && 0 <= k2 < r.arcs@.len() && (#[trigger] r.arcs@[k2]).u
                                == r.nodes@[#[trigger] qv[p] as int] && res_cap(r.arcs@[k2]) > 0
                                implies target_leveled(
                            r.nodes@,
                            r.arcs@,
                            lv,
                            k2,
                            (lv[qv[p] as int])->0 + 1,
                        ) by {
                            assert(qv[p] == pre_queue[p]);
                            assert(pre_queue[p] as int != vi as int);
                            let b = (pre_level[pre_queue[p] as int])->0 as int + 1;
                            assert(target_leveled(r.nodes@, r.arcs@, pre_level, k2, b));
                            assert forall|j: int|
                                0 <= j < r.nodes@.len() && r.nodes@[j] == r.arcs@[k2].v implies (
                            #[trigger] lv[j]) is Some && lv[j]->0 <= b by {
                                assert(pre_level[j] is Some && pre_level[j]->0 <= b);
                                assert(j != vi as int);
                            }
                        }
                        assert(bfs_closed_upto(r.nodes@, r.arcs@, lv, qv, h as int));
                        assert forall|k2: int|
                            0 <= k2 < k as int && (#[trigger] r.arcs@[k2]).u == u_id && res_cap(
                                r.arcs@[k2],
                            ) > 0 implies target_leveled(
                            r.nodes@,
                            r.arcs@,
                            lv,
                            k2,
                            lu as int + 1,
                        ) by {
                            assert(target_leveled(r.nodes@, r.arcs@, pre_level, k2, lu as int + 1));
                            assert forall|j: int|
                                0 <= j < r.nodes@.len() && r.nodes@[j] == r.arcs@[k2].v implies (
                            #[trigger] lv[j]) is Some && lv[j]->0 <= lu as int + 1 by {
                                assert(pre_level[j] is Some && pre_level[j]->0 <= lu as int + 1);
                                assert(j != vi as int);
                            }
                        }
                        assert(bfs_node_closed(r.nodes@, r.arcs@, lv, u_id, lu as int, k as int));
                    }
                }
                proof {
                    reveal(bfs_node_closed);
                    reveal(bfs_queue_ok);
                    reveal(bfs_covered);
                    assert(level@[vi as int] is Some);
                    assert(queue@.contains(vi));
                    let pq = choose|pq: int| 0 <= pq < queue@.len() && queue@[pq] == vi;
                    assert((level@[queue@[pq] as int])->0 <= (level@[queue@[queue@.len()
                        - 1] as int])->0);
                    assert((level@[queue@[queue@.len() - 1] as int])->0 <= (level@[queue@[
                        h as int] as int])->0 + 1);
                    assert(queue@[h as int] == ui);
                    assert((level@[vi as int])->0 <= lu as int + 1);
                    assert forall|k2: int|
                        0 <= k2 < k as int + 1 && (#[trigger] r.arcs@[k2]).u == u_id && res_cap(
                            r.arcs@[k2],
                        ) > 0 implies target_leveled(
                        r.nodes@,
                        r.arcs@,
                        level@,
                        k2,
                        lu as int + 1,
                    ) by {
                        if k2 == k as int {
                            assert forall|j: int|
                                0 <= j < n && r.nodes@[j] == r.arcs@[k2].v implies (
                            #[trigger] level@[j]) is Some && level@[j]->0 <= lu as int + 1 by {
                                assert(r.nodes@[j] == r.nodes@[vi as int]);
                                assert(j == vi as int);
                            }
                        }
                    }
                }
            } else {
                proof {
                    reveal(bfs_node_closed);
                    assert forall|k2: int|
                        0 <= k2 < k as int + 1 && (#[trigger] r.arcs@[k2]).u == u_id && res_cap(
                            r.arcs@[k2],
                        ) > 0 implies target_leveled(
                        r.nodes@,
                        r.arcs@,
                        level@,
                        k2,
                        lu as int + 1,
                    ) by {
                        assert(k2 < k as int);
                    }
                }
            }
            k += 1;
        }
        proof {
            reveal(bfs_closed_upto);
            reveal(bfs_node_closed);
            reveal(bfs_queue_ok);
            assert forall|p: int, k2: int|
                0 <= p < h as int + 1 && 0 <= k2 < r.arcs@.len() && (#[trigger] r.arcs@[k2]).u
                    == r.nodes@[#[trigger] queue@[p] as int] && res_cap(r.arcs@[k2]) > 0 implies
                target_leveled(
                r.nodes@,
                r.arcs@,
                level@,
                k2,
                (level@[queue@[p] as int])->0 + 1,
            ) by {
                if p == h as int {
                    assert(queue@[p] == ui);
                    assert(level@[ui as int] == Some(lu));
                }
            }
            if h as int + 1 < queue@.len() {
                assert((level@[queue@[h as int] as int])->0 <= (level@[queue@[h as int
                    + 1] as int])->0);
                assert((level@[queue@[queue@.len() - 1] as int])->0 <= (level@[queue@[h as int
                    + 1] as int])->0 + 1);
            }
            assert(bfs_frontier_ok(level@, queue@, h as int + 1));
        }
        h += 1;
    }
    let lay = Layering { level, parent };
    proof {
        lemma_lvl_of(r.nodes@, level@, si as int);
        reveal(bfs_queue_ok);
        reveal(bfs_covered);
        reveal(bfs_closed_upto);
        reveal(layer_closure);
        lemma_none_count_nonneg(level@);
        assert forall|i: int| 0 <= i < n && (#[trigger] level@[i]) is Some implies level@[i]->0
            < n by {
            assert(queue@.contains(i as usize));
            let p = choose|p: int| 0 <= p < queue@.len() && queue@[p] == i as usize;
            assert((level@[queue@[p] as int])->0 <= p);
        }
        assert forall|k: int, i: int|
            0 <= k < r.arcs@.len() && 0 <= i < n && (#[trigger] r.arcs@[k]).u == #[trigger] r.nodes@[i]
                && res_cap(r.arcs@[k]) > 0 && level@[i] is Some implies target_leveled(
            r.nodes@,
            r.arcs@,
            level@,
            k,
            (level@[i])->0 + 1,
        ) by {
            assert(queue@.contains(i as usize));
            let p = choose|p: int| 0 <= p < queue@.len() && queue@[p] == i as usize;
            assert(0 <= p < h as int);
            assert(queue@[p] as int == i);
        }
        assert(layer_closure(r.nodes@, r.arcs@, level@));
    }
    lay
}

/// A strictly level-increasing path visits no node twice.
pub proof fn lemma_level_path_distinct(
    nodes: Seq<u32>,
    level: Seq<Option<usize>>,
    arcs: Seq<Arc>,
    p: Seq<usize>,
    base: int,
)
    requires
        p.len() >= 1,
        forall|i: int|
            0 <= i <= p.len() ==> lvl_of(nodes, level, #[trigger] path_node(arcs, p, i)) is Some
                && lvl_of(nodes, level, path_node(arcs, p, i))->0 == base + i,
    ensures
        path_nodes_distinct(arcs, p),
{
    assert forall|i: int, j: int| 0 <= i < j <= p.len() implies path_node(arcs, p, i)
        != path_node(arcs, p, j) by {
        assert(lvl_of(nodes, level, path_node(arcs, p, i))->0 == base + i);
        assert(lvl_of(nodes, level, path_node(arcs, p, j))->0 == base + j);
    }
}


/// `q` is a path of arcs that all have positive residual capacity and
/// climb exactly one level, leading from node `x` to node `y`.
pub open spec fn lvl_path_ok(
    nodes: Seq<u32>,
    level: Seq<Option<usize>>,
    arcs: Seq<Arc>,
    q: Seq<usize>,
    x: u32,
    y: u32,
) -> bool {
    &&& q.len() >= 1
    &&& (forall|i: int| 0 <= i < q.len() ==> (#[trigger] q[i] as int) < arcs.len())
    &&& (forall|i: int| 0 <= i < q.len() ==> res_cap(arcs[#[trigger] q[i] as int]) > 0)
    &&& (forall|i: int|
        0 <= i < q.len() ==> arc_level_inc(nodes, level, arcs[#[trigger] q[i] as int]))
    &&& (forall|i: int|
        0 <= i < q.len() - 1 ==> arcs[#[trigger] q[i] as int].v == arcs[q[i + 1] as int].u)
    &&& arcs[q[0] as int].u == x
    &&& arcs[q[q.len() - 1] as int].v == y
}

/// Some level-respecting augmenting path leads from `x` to `y`.
pub open spec fn has_lvl_path(
    nodes: Seq<u32>,
    level: Seq<Option<usize>>,
    arcs: Seq<Arc>,
    x: u32,
    y: u32,
) -> bool {
    x == y || exists|q: Seq<usize>| lvl_path_ok(nodes, level, arcs, q, x, y)
}

/// The discovery arcs of a sound layering chain every discovered node
/// back to the source along a level-respecting augmenting path.
pub proof fn lemma_layer_path_exists(
    nodes: Seq<u32>,
    arcs: Seq<Arc>,
    level: Seq<Option<usize>>,
    parent: Seq<Option<usize>>,
    source: u32,
    i: int,
)
    requires
        forall|i1: int, i2: int| 0 <= i1 < i2 < nodes.len() ==> nodes[i1] != nodes[i2],
        level.len() == nodes.len(),
        layer_parents_ok(nodes, arcs, level, parent, source),
        lvl_of(nodes, level, source) == Some(0usize),
        0 <= i < nodes.len(),
        level[i] is Some,
    ensures
        has_lvl_path(nodes, level, arcs, source, nodes[i]),
        nodes[i] == source || exists|q: Seq<usize>|
            lvl_path_ok(nodes, level, arcs, q, source, nodes[i]) && q.len() == level[i]->0,
    decreases level[i]->0,
{
    if nodes[i] != source {
        reveal(layer_parents_ok);
        assert(parent_edge_ok(nodes, arcs, level, parent, i));
        let pk = parent[i]->0;
        let j = choose|j: int|
            0 <= j < nodes.len() && nodes[j] == arcs[pk as int].u && (#[trigger] level[j]) is Some
                && level[j]->0 + 1 == level[i]->0;
        lemma_lvl_of(nodes, level, j);
        lemma_lvl_of(nodes, level, i);
        assert(arc_level_inc(nodes, level, arcs[pk as int]));
        lemma_layer_path_exists(nodes, arcs, level, parent, source, j);
        if nodes[j] == source {
            let q = seq![pk];
            assert(level[j]->0 == 0) by {
                lemma_lvl_of(nodes, level, j);
            }
            assert(lvl_path_ok(nodes, level, arcs, q, source, nodes[i]) && q.len()
                == level[i]->0);
        } else {
            let q0 = choose|q0: Seq<usize>|
                lvl_path_ok(nodes, level, arcs, q0, source, nodes[j]) && q0.len() == level[j]->0;
            let q = q0.push(pk);
            assert forall|ii: int| 0 <= ii < q.len() - 1 implies arcs[#[trigger] q[ii] as int].v
                == arcs[q[ii + 1] as int].u by {
                if ii < q0.len() - 1 {
                    assert(q[ii] == q0[ii] && q[ii + 1] == q0[ii + 1]);
                } else {
                    assert(q[ii] == q0[q0.len() - 1] && q[ii + 1] == pk);
                }
            }
            assert(lvl_path_ok(nodes, level, arcs, q, source, nodes[i]) && q.len()
                == level[i]->0);
        }
    }
}

/// `q` is a path of positive-residual arcs from `x` to `y`, with no
/// constraint from any layering.
pub open spec fn res_path_ok(arcs: Seq<Arc>, q: Seq<usize>, x: u32, y: u32) -> bool {
    &&& q.len() >= 1
    &&& (forall|i: int| 0 <= i < q.len() ==> (#[trigger] q[i] as int) < arcs.len())
    &&& (forall|i: int| 0 <= i < q.len() ==> res_cap(arcs[#[trigger] q[i] as int]) > 0)
    &&& (forall|i: int|
        0 <= i < q.len() - 1 ==> arcs[#[trigger] q[i] as int].v == arcs[q[i + 1] as int].u)
    &&& arcs[q[0] as int].u == x
    &&& arcs[q[q.len() - 1] as int].v == y
}

/// Under a closed layering whose source sits at level zero, a residual
/// path of `L` arcs from the source discovers its end node at level at
/// most `L`: the breadth-first levels are least path lengths.
pub proof fn lemma_path_bounds_level(
    nodes: Seq<u32>,
    level: Seq<Option<usize>>,
    arcs: Seq<Arc>,
    source: u32,
    q: Seq<usize>,
    y: u32,
)
    requires
        forall|i1: int, i2: int| 0 <= i1 < i2 < nodes.len() ==> nodes[i1] != nodes[i2],
        level.len() == nodes.len(),
        forall|k: int|
            0 <= k < arcs.len() ==> nodes.contains((#[trigger] arcs[k]).u) && nodes.contains(
                arcs[k].v,
            ),
        layer_closure(nodes, arcs, level),
        lvl_of(nodes, level, source) == Some(0usize),
        res_path_ok(arcs, q, source, y),
    ensures
        lvl_of(nodes, level, y) is Some,
        lvl_of(nodes, level, y)->0 <= q.len(),
    decreases q.len(),
{
    reveal(layer_closure);
    let kl = q[q.len() - 1] as int;
    let z = arcs[kl].u;
    if q.len() == 1 {
        assert(z == source);
    } else {
        let q0 = q.drop_last();
        assert(arcs[q0[q0.len() - 1] as int].v == z);
        assert(res_path_ok(arcs, q0, source, z));
        lemma_path_bounds_level(nodes, level, arcs, source, q0, z);
    }
    let i = choose|i: int| 0 <= i < nodes.len() && nodes[i] == z;
    lemma_lvl_of(nodes, level, i);
    assert(level[i] is Some && level[i]->0 < q.len());
    assert(target_leveled(nodes, arcs, level, kl, level[i]->0 + 1));
    let j = choose|j: int| 0 <= j < nodes.len() && nodes[j] == y;
    assert(nodes.contains(arcs[kl].v));
    assert(level[j] is Some && level[j]->0 <= level[i]->0 + 1);
    lemma_lvl_of(nodes, level, j);
}

/// The layering is determined by the residual arcs and the source
/// alone: any two sound layerings assign the same level to every node,
/// so the search order over neighbors affects nothing observable.
pub proof fn lemma_layering_unique(
    nodes: Seq<u32>,
    arcs: Seq<Arc>,
    source: u32,
    lay1: Layering,
    lay2: Layering,
)
    requires
        forall|i1: int, i2: int| 0 <= i1 < i2 < nodes.len() ==> nodes[i1] != nodes[i2],
        forall|k: int|
            0 <= k < arcs.len() ==> nodes.contains((#[trigger] arcs[k]).u) && nodes.contains(
                arcs[k].v,
            ),
        lay1.sound_for(nodes, arcs, source),
        lay2.sound_for(nodes, arcs, source),
    ensures
        forall|i: int| 0 <= i < nodes.len() ==> lay1.level@[i] == lay2.level@[i],
{
    assert forall|i: int| 0 <= i < nodes.len() implies lay1.level@[i] == lay2.level@[i] by {
        lemma_layer_level_le(nodes, arcs, source, lay1, lay2, i);
        lemma_layer_level_le(nodes, arcs, source, lay2, lay1, i);
    }
}

/// One direction of the agreement: a node discovered by one sound
/// layering is discovered by the other at most as deep.
proof fn lemma_layer_level_le(
    nodes: Seq<u32>,
    arcs: Seq<Arc>,
    source: u32,
    laya: Layering,
    layb: Layering,
    i: int,
)
    requires
        forall|i1: int, i2: int| 0 <= i1 < i2 < nodes.len() ==> nodes[i1] != nodes[i2],
        forall|k: int|
            0 <= k < arcs.len() ==> nodes.contains((#[trigger] arcs[k]).u) && nodes.contains(
                arcs[k].v,
            ),
        laya.sound_for(nodes, arcs, source),
        layb.sound_for(nodes, arcs, source),
        0 <= i < nodes.len(),
    ensures
        laya.level@[i] is Some ==> layb.level@[i] is Some && layb.level@[i]->0
            <= laya.level@[i]->0,
{
    if laya.level@[i] is Some {
        lemma_lvl_of(nodes, laya.level@, i);
        lemma_lvl_of(nodes, layb.level@, i);
        if nodes[i] == source {
            assert(layb.level@[i] == Some(0usize));
        } else {
            lemma_layer_path_exists(nodes, arcs, laya.level@, laya.parent@, source, i);
            let q = choose|q: Seq<usize>|
                lvl_path_ok(nodes, laya.level@, arcs, q, source, nodes[i]) && q.len()
                    == laya.level@[i]->0;
            assert(res_path_ok(arcs, q, source, nodes[i]));
            lemma_path_bounds_level(nodes, layb.level@, arcs, source, q, nodes[i]);
        }
    }
}

/// Depth-first search for one augmenting path inside the fixed
/// layering: follows only positive-residual arcs that climb exactly one
/// level, and marks every node it enters so that dead ends are not
/// tried twice. A returned path runs from the node at index `ui` to
/// `sink`; `None` makes no claim, the caller recomputes the layering.
#[verifier::rlimit(100)]
pub(crate) fn dfs_level_path(
    r: &ResidualNetwork,
    lay: &Layering,
    ui: usize,
    sink: u32,
    visited: &mut Vec<bool>,
) -> (res: Option<Vec<usize>>)
    requires
        r.wf(),
        lay.consistent(r.nodes@),
        (ui as int) < r.nodes@.len(),
        lay.level@[ui as int] is Some,
        old(visited)@.len() == r.nodes@.len(),
        !old(visited)@[ui as int],
        forall|i: int|
            0 <= i < r.nodes@.len() && old(visited)@[i] ==> (#[trigger] lay.level@[i]) is Some
                && r.nodes@[i] != sink,
        forall|i: int|
            0 <= i < r.nodes@.len() && old(visited)@[i] && (#[trigger] lay.level@[i])->0
                > lay.level@[ui as int]->0 ==> !has_lvl_path(
                r.nodes@,
                lay.level@,
                r.arcs@,
                r.nodes@[i],
                sink,
            ),
    ensures
        final(visited)@.len() == old(visited)@.len(),
        forall|i: int| 0 <= i < old(visited)@.len() && old(visited)@[i] ==> final(visited)@[i],
        false_count(final(visited)@) <= false_count(old(visited)@) - 1,
        final(visited)@[ui as int],
        res is None ==> forall|i: int|
            0 <= i < r.nodes@.len() && final(visited)@[i] ==> (#[trigger] lay.level@[i]) is Some
                && r.nodes@[i] != sink,
        res is None ==> forall|i: int|
            0 <= i < r.nodes@.len() && #[trigger] final(visited)@[i] && !old(visited)@[i]
                ==> !has_lvl_path(r.nodes@, lay.level@, r.arcs@, r.nodes@[i], sink),
        match res {
            Some(p) => {
                let lu = lay.level@[ui as int]->0 as int;
                &&& (forall|i: int|
                    0 <= i < p@.len() ==> (#[trigger] p@[i] as int) < r.arcs@.len())
                &&& (forall|i: int|
                    0 <= i < p@.len() ==> res_cap(r.arcs@[#[trigger] p@[i] as int]) > 0)
                &&& (forall|i: int|
                    0 <= i < p@.len() ==> arc_level_inc(
                        r.nodes@,
                        lay.level@,
                        r.arcs@[#[trigger] p@[i] as int],
                    ))
                &&& (p@.len() == 0 ==> r.nodes@[ui as int] == sink)
                &&& (p@.len() > 0 ==> path_connected(r.arcs@, p@) && r.arcs@[p@[0] as int].u
                    == r.nodes@[ui as int] && r.arcs@[p@[p@.len() - 1] as int].v == sink)
                &&& (forall|i: int|
                    0 <= i <= p@.len() && p@.len() > 0 ==> lvl_of(
                        r.nodes@,
                        lay.level@,
                        #[trigger] path_node(r.arcs@, p@, i),
                    ) is Some && lvl_of(r.nodes@, lay.level@, path_node(r.arcs@, p@, i))->0 == lu
                        + i)
            },
            None => true,
        },
    decreases false_count(visited@),
{
    let u_id = r.nodes[ui];
    let ghost vis0 = visited@;
    visited[ui] = true;
    proof {
        lemma_false_count_update(vis0, ui as int);
    }
    if u_id == sink {
        return Some(Vec::new());
    }
    let lu = match lay.level[ui] {
        Some(l) => l,
        None => {
            proof {
                assert(false);
            }
            0
        },
    };
    let n = r.nodes.len();
    let arc_total = r.arcs.len();
    let mut k: usize = 0;
    while k < arc_total
        invariant
            r.wf(),
            lay.consistent(r.nodes@),
            n == r.nodes@.len(),
            arc_total == r.arcs@.len(),
            (ui as int) < n,
            u_id == r.nodes@[ui as int],
            u_id != sink,
            lay.level@[ui as int] == Some(lu),
            visited@.len() == n,
            vis0.len() == n,
            vis0 == old(visited)@,
            forall|i: int| 0 <= i < n && vis0[i] ==> visited@[i],
            false_count(visited@) <= false_count(vis0) - 1,
            visited@[ui as int],
            forall|i: int|
                0 <= i < n && visited@[i] ==> (#[trigger] lay.level@[i]) is Some && r.nodes@[i]
                    != sink,
            forall|i: int|
                0 <= i < n && vis0[i] && (#[trigger] lay.level@[i])->0 > lu ==> !has_lvl_path(
                    r.nodes@,
                    lay.level@,
                    r.arcs@,
                    r.nodes@[i],
                    sink,
                ),
            forall|i: int|
                0 <= i < n && #[trigger] visited@[i] && !vis0[i] && i != ui as int
                    ==> !has_lvl_path(r.nodes@, lay.level@, r.arcs@, r.nodes@[i], sink),
            forall|k2: int, j: int|
                0 <= k2 < k && 0 <= j < n && (#[trigger] r.arcs@[k2]).u == u_id && res_cap(
                    r.arcs@[k2],
                ) > 0 && arc_level_inc(r.nodes@, lay.level@, r.arcs@[k2]) && #[trigger] r.nodes@[j]
                    == r.arcs@[k2].v ==> visited@[j],
        decreases arc_total - k,
    {
        let a = r.arcs[k];
        if a.u == u_id && a.capacity > a.flow {
            let vi = find_index(&r.nodes, a.v);
            let climbs = match lay.level[vi] {
                Some(l) => l == lu + 1,
                None => false,
            };
            if climbs && !visited[vi] {
                let ghost vis_pre = visited@;
                proof {
                    assert(false_count(vis_pre) <= false_count(vis0) - 1);
                    assert(false_count(vis_pre) < false_count(old(visited)@));
                    lemma_false_count_nonneg(vis_pre);
                    assert(lay.level@[vi as int] == Some((lu + 1) as usize));
                    assert forall|i: int|
                        0 <= i < n && vis_pre[i] && (#[trigger] lay.level@[i])->0 > lay.level@[
                            vi as int]->0 implies !has_lvl_path(
                        r.nodes@,
                        lay.level@,
                        r.arcs@,
                        r.nodes@[i],
                        sink,
                    ) by {
                        if vis0[i] {
                            assert((lay.level@[i])->0 > lu);
                        } else {
                            assert(i != ui as int);
                        }
                    }
                }
                let sub = dfs_level_path(r, lay, vi, sink, visited);
                proof {
                    lemma_false_count_monotone(vis_pre, visited@);
                    assert(visited@.len() == n);
                    assert(false_count(visited@) <= false_count(vis0) - 1);
                    assert forall|i: int| 0 <= i < n && vis0[i] implies visited@[i] by {
                        assert(vis_pre[i]);
                    }
                }
                match sub {
                    Some(mut rest) => {
                        let ghost rest0 = rest@;
                        let mut out: Vec<usize> = Vec::new();
                        out.push(k);
                        out.append(&mut rest);
                        proof {
                            assert(out@ =~= seq![k] + rest0);
                            lemma_lvl_of(r.nodes@, lay.level@, ui as int);
                            lemma_lvl_of(r.nodes@, lay.level@, vi as int);
                            assert(r.arcs@[k as int].u == u_id && r.arcs@[k as int].v
                                == r.nodes@[vi as int]);
                            assert(arc_level_inc(r.nodes@, lay.level@, r.arcs@[k as int]));
                            if rest0.len() == 0 {
                                assert(r.nodes@[vi as int] == sink);
                                assert(path_connected(r.arcs@, out@));
                                assert(path_node(r.arcs@, out@, 0) == u_id);
                                assert(path_node(r.arcs@, out@, 1) == r.nodes@[vi as int]);
                            } else {
                                assert forall|i: int| 0 <= i < out@.len() - 1 implies r.arcs@[(
                                #[trigger] out@[i]) as int].v == r.arcs@[out@[i + 1] as int].u by {
                                    if i == 0 {
                                        assert(r.arcs@[rest0[0] as int].u == r.nodes@[vi as int]);
                                    } else {
                                        assert(out@[i] == rest0[i - 1] && out@[i + 1] == rest0[i]);
                                    }
                                }
                                assert(path_connected(r.arcs@, out@));
                                assert forall|i: int| 0 <= i <= out@.len() implies lvl_of(
                                    r.nodes@,
                                    lay.level@,
                                    #[trigger] path_node(r.arcs@, out@, i),
                                ) is Some && lvl_of(
                                    r.nodes@,
                                    lay.level@,
                                    path_node(r.arcs@, out@, i),
                                )->0 == lu + i by {
                                    if i == 0 {
                                        assert(path_node(r.arcs@, out@, 0) == u_id);
                                    } else {
                                        assert(out@[i - 1] == if i == 1 {
                                            k as usize
                                        } else {
                                            rest0[i - 2]
                                        });
                                        if i == 1 {
                                            assert(path_node(r.arcs@, out@, 1) == r.nodes@[vi as int]);
                                            assert(path_node(r.arcs@, rest0, 0) == r.nodes@[vi as int]);
                                        } else {
                                            assert(path_node(r.arcs@, out@, i) == path_node(
                                                r.arcs@,
                                                rest0,
                                                i - 1,
                                            ));
                                        }
                                    }
                                }
                            }
                        }
                        return Some(out);
                    },
                    None => {
                        proof {
                            assert forall|i: int|
                                0 <= i < n && #[trigger] visited@[i] && !vis0[i] && i
                                    != ui as int implies !has_lvl_path(
                                r.nodes@,
                                lay.level@,
                                r.arcs@,
                                r.nodes@[i],
                                sink,
                            ) by {
                                if !vis_pre[i] {
                                    assert(!has_lvl_path(
                                        r.nodes@,
                                        lay.level@,
                                        r.arcs@,
                                        r.nodes@[i],
                                        sink,
                                    ));
                                }
                            }
                        }
                    },
                }
            }
            proof {
                lemma_lvl_of(r.nodes@, lay.level@, ui as int);
                lemma_lvl_of(r.nodes@, lay.level@, vi as int);
                assert forall|j: int|
                    0 <= j < n && #[trigger] r.nodes@[j] == r.arcs@[k as int].v && arc_level_inc(
                        r.nodes@,
                        lay.level@,
                        r.arcs@[k as int],
                    ) implies visited@[j] by {
                    assert(j == vi as int);
                    assert(lvl_of(r.nodes@, lay.level@, r.arcs@[k as int].v)
                        == lay.level@[vi as int]);
                    assert(lvl_of(r.nodes@, lay.level@, r.arcs@[k as int].u) == Some(lu));
                    assert(lay.level@[vi as int] is Some && lay.level@[vi as int]->0 == lu
                        + 1);
                    assert(climbs);
                }
            }
        }
        k += 1;
    }
    proof {
        lemma_lvl_of(r.nodes@, lay.level@, ui as int);
        assert forall|q: Seq<usize>| !lvl_path_ok(
            r.nodes@,
            lay.level@,
            r.arcs@,
            q,
            u_id,
            sink,
        ) by {
            if lvl_path_ok(r.nodes@, lay.level@, r.arcs@, q, u_id, sink) {
                let k0 = q[0] as int;
                assert(r.arcs@[k0].u == u_id && res_cap(r.arcs@[k0]) > 0 && arc_level_inc(
                    r.nodes@,
                    lay.level@,
                    r.arcs@[k0],
                ));
                let vid = r.arcs@[k0].v;
                assert(r.nodes@.contains(vid));
                let j = choose|j: int| 0 <= j < n && r.nodes@[j] == vid;
                assert(visited@[j]);
                lemma_lvl_of(r.nodes@, lay.level@, j);
                assert(lay.level@[j] is Some && lay.level@[j]->0 == lu + 1);
                if vis0[j] {
                    assert((lay.level@[j])->0 > lu);
                } else {
                    assert(j != ui as int);
                }
                assert(!has_lvl_path(r.nodes@, lay.level@, r.arcs@, vid, sink));
                if q.len() == 1 {
                    assert(vid == sink);
                    assert(r.nodes@[j] != sink);
                    assert(false);
                } else {
                    let q2 = q.subrange(1, q.len() as int);
                    assert(q2[0] == q[1]);
                    assert(r.arcs@[q2[0] as int].u == vid);
                    assert forall|i: int| 0 <= i < q2.len() - 1 implies r.arcs@[(
                    #[trigger] q2[i]) as int].v == r.arcs@[q2[i + 1] as int].u by {
                        assert(q2[i] == q[i + 1] && q2[i + 1] == q[i + 2]);
                    }
                    assert(lvl_path_ok(r.nodes@, lay.level@, r.arcs@, q2, vid, sink));
                    assert(has_lvl_path(r.nodes@, lay.level@, r.arcs@, vid, sink));
                    assert(false);
                }
            }
        }
        assert(!has_lvl_path(r.nodes@, lay.level@, r.arcs@, u_id, sink));
        assert forall|i: int| 0 <= i < n && #[trigger] visited@[i] && !vis0[i] implies
            !has_lvl_path(r.nodes@, lay.level@, r.arcs@, r.nodes@[i], sink) by {
            if i == ui as int {
                assert(r.nodes@[i] == u_id);
            }
        }
    }
    None
}

/// The bottleneck of a path: the least residual capacity found on it.
pub(crate) fn compute_bottleneck(r: &ResidualNetwork, path: &Vec<usize>) -> (d: u32)
    requires
        r.wf(),
        path@.len() >= 1,
        forall|i: int| 0 <= i < path@.len() ==> (#[trigger] path@[i] as int) < r.arcs@.len(),
        forall|i: int| 0 <= i < path@.len() ==> res_cap(r.arcs@[#[trigger] path@[i] as int]) > 0,
    ensures
        d >= 1,
        path_res_at_least(r.arcs@, path@, d as int),
        exists|i: int|
            0 <= i < path@.len() && res_cap(r.arcs@[#[trigger] path@[i] as int]) == d,
{
    let a0 = r.arcs[path[0]];
    let mut d: u32 = a0.capacity - a0.flow;
    let mut i: usize = 1;
    while i < path.len()
        invariant
            r.wf(),
            1 <= i <= path@.len(),
            forall|j: int| 0 <= j < path@.len() ==> (#[trigger] path@[j] as int) < r.arcs@.len(),
            forall|j: int|
                0 <= j < path@.len() ==> res_cap(r.arcs@[#[trigger] path@[j] as int]) > 0,
            d >= 1,
            forall|j: int| 0 <= j < i ==> res_cap(r.arcs@[#[trigger] path@[j] as int]) >= d,
            exists|j: int| 0 <= j < i && res_cap(r.arcs@[#[trigger] path@[j] as int]) == d,
        decreases path@.len() - i,
    {
        let a = r.arcs[path[i]];
        let ri = a.capacity - a.flow;
        if ri < d {
            d = ri;
        }
        i += 1;
    }
    d
}

/// A push along level-climbing arcs changes flows only on those arcs
/// and their opposing arcs: any arc whose flow moved away from the
/// base state either climbs one level itself or opposes one that does.
proof fn lemma_push_touches_layer_arcs(
    nodes: Seq<u32>,
    level: Seq<Option<usize>>,
    base: Seq<Arc>,
    pre: Seq<Arc>,
    cur: Seq<Arc>,
    path: Seq<usize>,
)
    requires
        same_shape(base, pre),
        same_shape(base, cur),
        pre.len() == cur.len(),
        forall|k: int|
            0 <= k < pre.len() && pre[k].flow != base[k].flow ==> arc_level_inc(
                nodes,
                level,
                #[trigger] base[k],
            ) || arc_level_inc(nodes, level, base[mate(k)]),
        forall|i: int|
            0 <= i < path.len() ==> arc_level_inc(nodes, level, pre[#[trigger] path[i] as int]),
        forall|i: int| 0 <= i < path.len() ==> (#[trigger] path[i] as int) < pre.len(),
        forall|k2: int|
            0 <= k2 < cur.len() && (forall|j: int|
                0 <= j < path.len() ==> #[trigger] path[j] as int != k2 && mate(path[j] as int)
                    != k2) ==> cur[k2] == pre[k2],
        base.len() % 2 == 0,
        forall|k: int| 0 <= k < base.len() ==> 0 <= #[trigger] mate(k) < base.len(),
    ensures
        forall|k: int|
            0 <= k < cur.len() && cur[k].flow != base[k].flow ==> arc_level_inc(
                nodes,
                level,
                #[trigger] base[k],
            ) || arc_level_inc(nodes, level, base[mate(k)]),
{
    assert forall|k: int| 0 <= k < cur.len() && cur[k].flow != base[k].flow implies arc_level_inc(
        nodes,
        level,
        #[trigger] base[k],
    ) || arc_level_inc(nodes, level, base[mate(k)]) by {
        if cur[k] == pre[k] {
            assert(pre[k].flow != base[k].flow);
        } else {
            let j = choose|j: int|
                0 <= j < path.len() && !(path[j] as int != k && mate(path[j] as int) != k);
            let pj = path[j] as int;
            if pj == k {
                assert(arc_level_inc(nodes, level, pre[k]));
                assert(pre[k].u == base[k].u && pre[k].v == base[k].v);
                assert(arc_level_inc(nodes, level, base[k]));
            } else {
                assert(mate(pj) == k);
                assert(mate(mate(pj)) == pj);
                assert(mate(k) == pj);
                assert(arc_level_inc(nodes, level, pre[pj]));
                assert(pre[pj].u == base[pj].u && pre[pj].v == base[pj].v);
                assert(arc_level_inc(nodes, level, base[mate(k)]));
            }
        }
    }
}

/// One blocking-flow phase: repeatedly finds a level-respecting
/// augmenting path by depth-first search and saturates it by its
/// bottleneck, until no further path is found in this layering. The
/// total pushed moves from the source's excess to the sink's; every
/// other node conserves flow. At return no level-respecting augmenting
/// path remains (the flow blocks the layering), and whenever the
/// layering reached the sink the phase has pushed at least one unit:
/// the discovery arcs of a sound layering form such a path, so a phase
/// that pushed nothing under a sink-reaching layering is impossible.
#[verifier::rlimit(100)]
pub fn dinitz_blocking_flow(
    r: &mut ResidualNetwork,
    lay: &Layering,
    source: u32,
    sink: u32,
) -> (pushed: u64)
    requires
        old(r).wf(),
        lay.sound_for(old(r).nodes@, old(r).arcs@, source),
        old(r).nodes@.contains(source),
        old(r).nodes@.contains(sink),
        source != sink,
        excess(old(r).arcs@, sink) >= 0,
        excess(old(r).arcs@, source) == -excess(old(r).arcs@, sink),
        forall|w: u32| w != source && w != sink ==> excess(old(r).arcs@, w) == 0,
    ensures
        final(r).wf(),
        final(r).nodes@ == old(r).nodes@,
        same_shape(old(r).arcs@, final(r).arcs@),
        forall|w: u32| w != source && w != sink ==> excess(final(r).arcs@, w) == 0,
        excess(final(r).arcs@, sink) == excess(old(r).arcs@, sink) + pushed,
        excess(final(r).arcs@, source) == -excess(final(r).arcs@, sink),
        pushed == 0 ==> final(r).arcs@ == old(r).arcs@,
        lvl_of(old(r).nodes@, lay.level@, sink) is Some ==> pushed >= 1,
        !has_lvl_path(old(r).nodes@, lay.level@, final(r).arcs@, source, sink),
        forall|k: int|
            0 <= k < final(r).arcs@.len() && final(r).arcs@[k].flow != old(r).arcs@[k].flow
                ==> arc_level_inc(old(r).nodes@, lay.level@, #[trigger] old(r).arcs@[k])
                || arc_level_inc(old(r).nodes@, lay.level@, old(r).arcs@[mate(k)]),
{
    let n = r.nodes.len();
    let si = find_index(&r.nodes, source);
    proof {
        lemma_lvl_of(r.nodes@, lay.level@, si as int);
    }
    let mut pushed: u64 = 0;
    let mut searching = true;
    while searching
        invariant
            r.wf(),
            lay.consistent(r.nodes@),
            n == r.nodes@.len(),
            si < n,
            r.nodes@[si as int] == source,
            lay.level@[si as int] == Some(0usize),
            source != sink,
            r.nodes@ == old(r).nodes@,
            same_shape(old(r).arcs@, r.arcs@),
            excess(old(r).arcs@, sink) >= 0,
            forall|w: u32| w != source && w != sink ==> excess(r.arcs@, w) == 0,
            excess(r.arcs@, sink) == excess(old(r).arcs@, sink) + pushed,
            excess(r.arcs@, source) == -excess(r.arcs@, sink),
            pushed == 0 ==> r.arcs@ == old(r).arcs@,
            !searching ==> !has_lvl_path(r.nodes@, lay.level@, r.arcs@, source, sink),
            forall|k: int|
                0 <= k < r.arcs@.len() && r.arcs@[k].flow != old(r).arcs@[k].flow
                    ==> arc_level_inc(r.nodes@, lay.level@, #[trigger] old(r).arcs@[k])
                    || arc_level_inc(r.nodes@, lay.level@, old(r).arcs@[mate(k)]),
        decreases arc_cap_sum(r.arcs@) - excess(r.arcs@, sink) + (if searching {
            1int
        } else {
            0int
        }),
    {
        proof {
            lemma_flow_sums_nonneg(r.arcs@, sink);
            lemma_flow_in_le_cap_sum(r.arcs@, sink);
        }
        let mut visited = vec_of_false(n);
        let ghost fresh0 = visited@;
        let found = dfs_level_path(r, lay, si, sink, &mut visited);
        match found {
            None => {
                proof {
                    assert(visited@[si as int] && !fresh0[si as int]);
                    assert(!has_lvl_path(r.nodes@, lay.level@, r.arcs@, r.nodes@[si as int], sink));
                }
                searching = false;
            },
            Some(p) => {
                if p.len() == 0 {
                    proof {
                        assert(r.nodes@[si as int] == sink);
                        assert(false);
                    }
                    searching = false;
                } else {
                    let delta = compute_bottleneck(r, &p);
                    let ghost base = lay.level@[si as int]->0 as int;
                    proof {
                        lemma_level_path_distinct(r.nodes@, lay.level@, r.arcs@, p@, base);
                        assert(path_node(r.arcs@, p@, 0) == source);
                        assert(path_node(r.arcs@, p@, p@.len() as int) == sink);
                    }
                    let ghost pre = r.arcs@;
                    r.push_augmenting_path(&p, delta);
                    proof {
                        lemma_arc_cap_sum_same_shape(pre, r.arcs@);
                        lemma_flow_sums_nonneg(r.arcs@, sink);
                        lemma_flow_in_le_cap_sum(r.arcs@, sink);
                        assert(excess(r.arcs@, sink) == excess(pre, sink) + delta);
                        assert(excess(r.arcs@, sink) <= arc_cap_sum(r.arcs@));
                        lemma_push_touches_layer_arcs(
                            r.nodes@,
                            lay.level@,
                            old(r).arcs@,
                            pre,
                            r.arcs@,
                            p@,
                        );
                    }
                    pushed = pushed + (delta as u64);
                }
            },
        }
    }
    proof {
        if pushed == 0 && lvl_of(r.nodes@, lay.level@, sink) is Some {
            let ti = choose|i: int| 0 <= i < r.nodes@.len() && r.nodes@[i] == sink;
            lemma_lvl_of(r.nodes@, lay.level@, ti);
            lemma_layer_path_exists(r.nodes@, r.arcs@, lay.level@, lay.parent@, source, ti);
            assert(has_lvl_path(r.nodes@, lay.level@, r.arcs@, source, sink));
            assert(false);
        }
    }
    pushed
}

/// Along any positive-residual path of the pushed network that starts
/// at the source, the previous layering's levels grow by at most one
/// per arc; and a path that spends its whole length climbing is
/// level-respecting for the previous layering.
proof fn lemma_old_levels_bound(
    nodes: Seq<u32>,
    level1: Seq<Option<usize>>,
    old_arcs: Seq<Arc>,
    new_arcs: Seq<Arc>,
    source: u32,
    q: Seq<usize>,
    y: u32,
)
    requires
        forall|i1: int, i2: int| 0 <= i1 < i2 < nodes.len() ==> nodes[i1] != nodes[i2],
        level1.len() == nodes.len(),
        forall|k: int|
            0 <= k < new_arcs.len() ==> nodes.contains((#[trigger] new_arcs[k]).u)
                && nodes.contains(new_arcs[k].v),
        same_shape(old_arcs, new_arcs),
        old_arcs.len() % 2 == 0,
        forall|k: int|
            0 <= k < old_arcs.len() ==> {
                let m = #[trigger] mate(k);
                &&& 0 <= m < old_arcs.len()
                &&& old_arcs[m].u == old_arcs[k].v
                &&& old_arcs[m].v == old_arcs[k].u
            },
        layer_closure(nodes, old_arcs, level1),
        lvl_of(nodes, level1, source) == Some(0usize),
        forall|k: int|
            0 <= k < new_arcs.len() && (#[trigger] new_arcs[k]).flow != old_arcs[k].flow
                ==> arc_level_inc(nodes, level1, old_arcs[k]) || arc_level_inc(
                nodes,
                level1,
                old_arcs[mate(k)],
            ),
        res_path_ok(new_arcs, q, source, y),
    ensures
        lvl_of(nodes, level1, y) is Some,
        lvl_of(nodes, level1, y)->0 <= q.len(),
        lvl_of(nodes, level1, y)->0 == q.len() ==> lvl_path_ok(
            nodes,
            level1,
            new_arcs,
            q,
            source,
            y,
        ),
    decreases q.len(),
{
    reveal(layer_closure);
    let kl = q[q.len() - 1] as int;
    let z = new_arcs[kl].u;
    if q.len() == 1 {
        assert(z == source);
    } else {
        let q0 = q.drop_last();
        assert(new_arcs[q0[q0.len() - 1] as int].v == z);
        assert(res_path_ok(new_arcs, q0, source, z));
        lemma_old_levels_bound(nodes, level1, old_arcs, new_arcs, source, q0, z);
    }
    let i = choose|i: int| 0 <= i < nodes.len() && nodes[i] == z;
    lemma_lvl_of(nodes, level1, i);
    assert(level1[i] is Some && level1[i]->0 < q.len());
    let j = choose|j: int| 0 <= j < nodes.len() && nodes[j] == new_arcs[kl].v;
    assert(nodes.contains(new_arcs[kl].v));
    lemma_lvl_of(nodes, level1, j);
    assert(old_arcs[kl].u == z && old_arcs[kl].v == new_arcs[kl].v);
    if new_arcs[kl].flow == old_arcs[kl].flow {
        // the arc was already there, so the old closure bounds its head
        assert(res_cap(old_arcs[kl]) > 0);
        assert(target_leveled(nodes, old_arcs, level1, kl, level1[i]->0 + 1));
        assert(level1[j] is Some && level1[j]->0 <= level1[i]->0 + 1);
    } else if arc_level_inc(nodes, level1, old_arcs[kl]) {
        assert(level1[j] is Some && level1[j]->0 == level1[i]->0 + 1);
    } else {
        // only the opposing arc climbs, so this arc steps one level down
        assert(arc_level_inc(nodes, level1, old_arcs[mate(kl)]));
        assert(old_arcs[mate(kl)].u == new_arcs[kl].v && old_arcs[mate(kl)].v == z);
        assert(lvl_of(nodes, level1, z) is Some && lvl_of(nodes, level1, z)->0 == lvl_of(
            nodes,
            level1,
            new_arcs[kl].v,
        )->0 + 1);
        assert(level1[j] is Some && level1[j]->0 + 1 == level1[i]->0);
    }
    if level1[j]->0 == q.len() {
        assert(level1[j]->0 == level1[i]->0 + 1);
        assert(arc_level_inc(nodes, level1, new_arcs[kl]));
        if q.len() == 1 {
            assert(lvl_path_ok(nodes, level1, new_arcs, q, source, y));
        } else {
            let q0 = q.drop_last();
            assert(lvl_of(nodes, level1, z)->0 == q0.len());
            assert(lvl_path_ok(nodes, level1, new_arcs, q0, source, z));
            assert forall|ii: int| 0 <= ii < q.len() implies arc_level_inc(
                nodes,
                level1,
                new_arcs[#[trigger] q[ii] as int],
            ) by {
                if ii < q.len() - 1 {
                    assert(q[ii] == q0[ii]);
                }
            }
            assert(lvl_path_ok(nodes, level1, new_arcs, q, source, y));
        }
    }
}

/// Each blocking-flow phase drives the sink strictly deeper: a fresh
/// layering of the pushed network levels the sink, if at all, strictly
/// above the layering the phase blocked. This bounds the number of
/// phases by the number of nodes.
pub proof fn lemma_phase_deepens_layering(
    nodes: Seq<u32>,
    old_arcs: Seq<Arc>,
    new_arcs: Seq<Arc>,
    source: u32,
    sink: u32,
    lay1: Layering,
    lay2: Layering,
    ti: int,
)
    requires
        forall|i1: int, i2: int| 0 <= i1 < i2 < nodes.len() ==> nodes[i1] != nodes[i2],
        forall|k: int|
            0 <= k < new_arcs.len() ==> nodes.contains((#[trigger] new_arcs[k]).u)
                && nodes.contains(new_arcs[k].v),
        same_shape(old_arcs, new_arcs),
        old_arcs.len() % 2 == 0,
        forall|k: int|
            0 <= k < old_arcs.len() ==> {
                let m = #[trigger] mate(k);
                &&& 0 <= m < old_arcs.len()
                &&& old_arcs[m].u == old_arcs[k].v
                &&& old_arcs[m].v == old_arcs[k].u
            },
        lay1.sound_for(nodes, old_arcs, source),
        lay2.sound_for(nodes, new_arcs, source),
        forall|k: int|
            0 <= k < new_arcs.len() && (#[trigger] new_arcs[k]).flow != old_arcs[k].flow
                ==> arc_level_inc(nodes, lay1.level@, old_arcs[k]) || arc_level_inc(
                nodes,
                lay1.level@,
                old_arcs[mate(k)],
            ),
        !has_lvl_path(nodes, lay1.level@, new_arcs, source, sink),
        0 <= ti < nodes.len(),
        nodes[ti] == sink,
        source != sink,
        lay1.level@[ti] is Some,
        lay2.level@[ti] is Some,
    ensures
        lay2.level@[ti]->0 > lay1.level@[ti]->0,
{
    lemma_layer_path_exists(nodes, new_arcs, lay2.level@, lay2.parent@, source, ti);
    let q = choose|q: Seq<usize>|
        lvl_path_ok(nodes, lay2.level@, new_arcs, q, source, nodes[ti]) && q.len()
            == lay2.level@[ti]->0;
    assert(res_path_ok(new_arcs, q, source, sink));
    lemma_old_levels_bound(nodes, lay1.level@, old_arcs, new_arcs, source, q, sink);
    lemma_lvl_of(nodes, lay1.level@, ti);
    if lay1.level@[ti]->0 == q.len() {
        assert(lvl_path_ok(nodes, lay1.level@, new_arcs, q, source, sink));
        assert(has_lvl_path(nodes, lay1.level@, new_arcs, source, sink));
        assert(false);
    }
}

} // verus!
