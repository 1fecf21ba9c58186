use vstd::prelude::*;

use crate::graph::CapacityGraph;
use crate::mincut::MinCutResult;
use crate::mincut::min_cut;
use crate::mincut::min_cut_witness;
use crate::mincut::query_ok;
use crate::residual::Arc;

verus! {

/// One edge of the cut tree: two nodes of the graph and a certified
/// max-flow/min-cut value between them.
#[derive(Clone, Copy, Debug, PartialEq, Eq, Structural)]
pub struct CutTreeEdge {
    pub a: u32,
    pub b: u32,
    pub weight: u64,
}

/// `w` is the value the library's min-cut query certifies between the
/// two nodes: some conserving residual state delivers `w` to `sink`,
/// and some closed source side separates the pair.
pub open spec fn certified_cut_value(g: CapacityGraph, source: u32, sink: u32, w: u64) -> bool {
    exists|ss: Set<u32>, arcs: Seq<Arc>, res: MinCutResult|
        min_cut_witness(g, source, sink, ss, arcs, res) && res.flow_value == w
}

fn vec_contains(v: &Vec<u32>, id: u32) -> (r: bool)
    ensures
        r == v@.contains(id),
{
    let n = v.len();
    let mut i: usize = 0;
    while i < n
        invariant
            0 <= i <= n,
            n == v@.len(),
            forall|j: int| 0 <= j < i ==> v@[j] != id,
        decreases n - i,
    {
        if v[i] == id {
            return true;
        }
        i += 1;
    }
    false
}

/// Builds a cut tree over the graph's nodes by Gusfield's method: each
/// node after the first is joined to a representative among the earlier
/// nodes by an edge carrying the min-cut value between the two, and the
/// nodes that land on the new source side are re-parented onto the new
/// node. The edges form a tree because every new node attaches to an
/// earlier one.
#[verifier::rlimit(100)]
pub fn build_gomory_hu_tree(g: &CapacityGraph) -> (tree: Vec<CutTreeEdge>)
    requires
        g.wf(),
    ensures
        tree@.len() == if g.node_seq().len() == 0 {
            0int
        } else {
            g.node_seq().len() - 1
        },
        forall|k: int|
            0 <= k < tree@.len() ==> {
                let te = #[trigger] tree@[k];
                &&& te.a == g.node_seq()[k + 1]
                &&& g.node_seq().contains(te.b)
                &&& te.a != te.b
                &&& certified_cut_value(*g, te.a, te.b, te.weight)
            },
{
    let n = g.node_count();
    let mut tree: Vec<CutTreeEdge> = Vec::new();
    if n == 0 {
        return tree;
    }
    let mut parent: Vec<usize> = Vec::new();
    let mut q: usize = 0;
    while q < n
        invariant
            0 <= q <= n,
            parent@.len() == q,
            forall|j: int| 0 <= j < q ==> (#[trigger] parent@[j]) == 0,
        decreases n - q,
    {
        parent.push(0);
        q += 1;
    }
    let mut i: usize = 1;
    while i < n
        invariant
            g.wf(),
            1 <= i <= n,
            n == g.node_seq().len(),
            parent@.len() == n,
            parent@[0] == 0,
            forall|j: int| 1 <= j < n ==> (#[trigger] parent@[j] as int) < j,
            tree@.len() == i - 1,
            forall|k: int|
                0 <= k < tree@.len() ==> {
                    let te = #[trigger] tree@[k];
                    &&& te.a == g.node_seq()[k + 1]
                    &&& g.node_seq().contains(te.b)
                    &&& te.a != te.b
                    &&& certified_cut_value(*g, te.a, te.b, te.weight)
                },
        decreases n - i,
    {
        let pi = parent[i];
        let s_id = g.node_at(i);
        let t_id = g.node_at(pi);
        proof {
            assert((pi as int) < (i as int));
            assert(s_id != t_id);
            assert(g.node_seq().contains(s_id));
            assert(g.node_seq().contains(t_id));
        }
        let outcome = min_cut(g, s_id, t_id);
        match outcome {
            Ok(res) => {
                let w = res.flow_value;
                proof {
                    let (ss, arcs) = choose|ss: Set<u32>, arcs: Seq<Arc>|
                        min_cut_witness(*g, s_id, t_id, ss, arcs, res);
                    assert(min_cut_witness(*g, s_id, t_id, ss, arcs, res) && res.flow_value == w);
                    assert(certified_cut_value(*g, s_id, t_id, w));
                }
                let mut j = i + 1;
                while j < n
                    invariant
                        i + 1 <= j <= n || j == i + 1,
                        i < n,
                        n == g.node_seq().len(),
                        parent@.len() == n,
                        parent@[0] == 0,
                        forall|j2: int| 1 <= j2 < n ==> (#[trigger] parent@[j2] as int) < j2,
                        g.wf(),
                    decreases n - j,
                {
                    if parent[j] == pi {
                        if vec_contains(&res.source_side.nodes, g.node_at(j)) {
                            parent[j] = i;
                        }
                    }
                    j += 1;
                }
                let ghost pre_tree = tree@;
                tree.push(CutTreeEdge { a: s_id, b: t_id, weight: w });
                proof {
                    assert forall|k: int| 0 <= k < tree@.len() implies {
                        let te = #[trigger] tree@[k];
                        &&& te.a == g.node_seq()[k + 1]
                        &&& g.node_seq().contains(te.b)
                        &&& te.a != te.b
                        &&& certified_cut_value(*g, te.a, te.b, te.weight)
                    } by {
                        if k < pre_tree.len() {
                            assert(tree@[k] == pre_tree[k]);
                        } else {
                            assert(tree@[k].a == s_id && tree@[k].b == t_id);
                        }
                    }
                }
            },
            Err(_) => {
                proof {
                    assert(query_ok(*g, s_id, t_id));
                    assert(false);
                }
            },
        }
        i += 1;
    }
    tree
}

} // verus!
