//! Verified core of the blackjack procedural modelling engine: selection
//! expressions, half-edge mesh connectivity and its edit operations, the
//! compact subdivision representation, and the node graph data model.
use vstd::prelude::*;

pub mod text;
pub mod selection;
pub mod compact_mesh;
pub mod slots;
pub mod halfedge;
pub mod traversals;
pub mod channels;
pub mod mesh;
pub mod graph;
pub mod serialization;
pub mod graph_interpreter;
pub mod graph_compiler;
pub mod gizmos;
pub mod sync;
pub mod math;
pub mod id_types;
pub mod utils;
pub mod graph_data_model;
pub mod node_graph;
pub mod lua_sources;
pub mod edit_ops;
pub mod positions;
pub mod primitives;

verus! {

} // verus!
