use minkcut::CapacityGraph;
use minkcut::MinCutError;
use minkcut::build_gomory_hu_tree;
use minkcut::init_residual_network;
use minkcut::min_cut;

fn triangle() -> CapacityGraph {
    let mut g = CapacityGraph::new();
    for id in [1u32, 2, 3] {
        g.add_node(id);
    }
    g.add_edge(1, 2, 2).unwrap();
    g.add_edge(2, 3, 3).unwrap();
    g.add_edge(3, 1, 1).unwrap();
    g
}

#[test]
fn triangle_cut_value() {
    let g = triangle();
    let r = min_cut(&g, 1, 3).unwrap();
    assert_eq!(r.flow_value, 3);
}

#[test]
fn disconnected_pair_has_zero_flow() {
    let mut g = CapacityGraph::new();
    g.add_node(7);
    g.add_node(9);
    let r = min_cut(&g, 7, 9).unwrap();
    assert_eq!(r.flow_value, 0);
    assert_eq!(r.source_side.nodes, vec![7]);
    assert_eq!(r.sink_side.nodes, vec![9]);
}

#[test]
fn degenerate_query_is_rejected() {
    let mut g = CapacityGraph::new();
    g.add_node(1);
    assert_eq!(min_cut(&g, 1, 1), Err(MinCutError::DegenerateQuery));
}

#[test]
fn missing_endpoint_is_rejected() {
    let mut g = CapacityGraph::new();
    g.add_node(1);
    assert_eq!(min_cut(&g, 1, 2), Err(MinCutError::InvalidEndpoint));
    assert_eq!(min_cut(&g, 2, 1), Err(MinCutError::InvalidEndpoint));
}

#[test]
fn single_edge_cut() {
    let mut g = CapacityGraph::new();
    g.add_node(10);
    g.add_node(20);
    g.add_edge(10, 20, 5).unwrap();
    let r = min_cut(&g, 10, 20).unwrap();
    assert_eq!(r.flow_value, 5);
    assert_eq!(r.source_side.nodes, vec![10]);
    assert_eq!(r.sink_side.nodes, vec![20]);
    assert!(r.source_side.edges.is_empty());
    assert!(r.sink_side.edges.is_empty());
}

#[test]
fn unit_clique_cut_is_degree() {
    let mut g = CapacityGraph::new();
    for id in 0u32..4 {
        g.add_node(id);
    }
    for u in 0u32..4 {
        for v in (u + 1)..4 {
            g.add_edge(u, v, 1).unwrap();
        }
    }
    for s in 0u32..4 {
        for t in 0u32..4 {
            if s != t {
                let r = min_cut(&g, s, t).unwrap();
                assert_eq!(r.flow_value, 3);
            }
        }
    }
}

#[test]
fn repeated_queries_agree() {
    let g = triangle();
    let a = min_cut(&g, 2, 1).unwrap();
    let b = min_cut(&g, 2, 1).unwrap();
    assert_eq!(a.flow_value, b.flow_value);
}

#[test]
fn partition_covers_all_nodes() {
    let g = triangle();
    let r = min_cut(&g, 1, 2).unwrap();
    let mut all: Vec<u32> = r.source_side.nodes.clone();
    all.extend(r.sink_side.nodes.iter());
    all.sort();
    assert_eq!(all, vec![1, 2, 3]);
    for id in &r.source_side.nodes {
        assert!(!r.sink_side.nodes.contains(id));
    }
    assert!(r.source_side.nodes.contains(&1));
    assert!(r.sink_side.nodes.contains(&2));
}

#[test]
fn cut_value_matches_crossing_capacity() {
    let g = triangle();
    let r = min_cut(&g, 1, 3).unwrap();
    let mut crossing: u64 = 0;
    for (u, v, c) in [(1u32, 2u32, 2u32), (2, 3, 3), (3, 1, 1)] {
        let u_src = r.source_side.nodes.contains(&u);
        let v_src = r.source_side.nodes.contains(&v);
        if u_src != v_src {
            crossing += c as u64;
        }
    }
    assert_eq!(r.flow_value, crossing);
}

#[test]
fn self_loop_is_rejected() {
    let mut g = CapacityGraph::new();
    g.add_node(1);
    assert_eq!(g.add_edge(1, 1, 4), Err(MinCutError::InvalidCapacity));
}

#[test]
fn edge_to_missing_node_is_rejected() {
    let mut g = CapacityGraph::new();
    g.add_node(1);
    assert_eq!(g.add_edge(1, 2, 4), Err(MinCutError::InvalidEndpoint));
}

#[test]
fn adding_an_edge_twice_replaces_the_capacity() {
    let mut g = CapacityGraph::new();
    g.add_node(1);
    g.add_node(2);
    g.add_edge(1, 2, 4).unwrap();
    g.add_edge(2, 1, 9).unwrap();
    assert_eq!(g.edge_capacity(1, 2), Some(9));
    let r = min_cut(&g, 1, 2).unwrap();
    assert_eq!(r.flow_value, 9);
}

#[test]
fn residual_network_mirrors_positive_edges() {
    let mut g = CapacityGraph::new();
    for id in [1u32, 2, 3] {
        g.add_node(id);
    }
    g.add_edge(1, 2, 2).unwrap();
    g.add_edge(2, 3, 0).unwrap();
    let r = init_residual_network(&g);
    assert_eq!(r.nodes, vec![1, 2, 3]);
    assert_eq!(r.arcs.len(), 2);
    assert_eq!((r.arcs[0].u, r.arcs[0].v, r.arcs[0].capacity, r.arcs[0].flow), (1, 2, 2, 0));
    assert_eq!((r.arcs[1].u, r.arcs[1].v, r.arcs[1].capacity, r.arcs[1].flow), (2, 1, 2, 0));
}

#[test]
fn gomory_hu_tree_on_single_edge() {
    let mut g = CapacityGraph::new();
    g.add_node(10);
    g.add_node(20);
    g.add_edge(10, 20, 5).unwrap();
    let tree = build_gomory_hu_tree(&g);
    assert_eq!(tree.len(), 1);
    assert_eq!((tree[0].a, tree[0].b, tree[0].weight), (20, 10, 5));
}

#[test]
fn gomory_hu_tree_on_triangle() {
    let g = triangle();
    let tree = build_gomory_hu_tree(&g);
    assert_eq!(tree.len(), 2);
    for te in &tree {
        assert_ne!(te.a, te.b);
        let direct = min_cut(&g, te.a, te.b).unwrap();
        assert_eq!(direct.flow_value, te.weight);
    }
}

#[test]
fn gomory_hu_tree_on_empty_graph() {
    let g = CapacityGraph::new();
    assert!(build_gomory_hu_tree(&g).is_empty());
}
