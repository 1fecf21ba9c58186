//! Minimum s-t cut of a weighted undirected graph, computed through
//! max-flow/min-cut duality: the graph is turned into a residual flow
//! network, saturated with a maximum flow found by blocking-flow
//! augmentation (Dinitz's method), and the cut partition is read off from
//! residual reachability.

mod duality;
mod errors;
mod gomory_hu;
mod graph;
mod residual;
mod mincut;
mod search;

pub use errors::MinCutError;
pub use gomory_hu::CutTreeEdge;
pub use gomory_hu::build_gomory_hu_tree;
pub use gomory_hu::certified_cut_value;
pub use graph::CapacityGraph;
pub use graph::Edge;
pub use residual::Arc;
pub use residual::ResidualNetwork;
pub use residual::init_residual_network;
pub use search::Layering;
pub use search::search_layers;
pub use search::dinitz_blocking_flow;
pub use search::lemma_layering_unique;
pub use search::has_lvl_path;
pub use search::lvl_path_ok;
pub use mincut::CutSide;
pub use mincut::MinCutResult;
pub use mincut::min_cut;
pub use mincut::min_cut_witness;
pub use mincut::lemma_max_flow_min_cut;
pub use mincut::lemma_cut_value_unique;
pub use mincut::lemma_partition_complete;
pub use mincut::lemma_flow_invariants;
pub use mincut::query_ok;
