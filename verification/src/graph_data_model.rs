//! An earlier, simpler model of the node graph, where an input can also be
//! computed by a Lua expression.
use vstd::prelude::*;

use crate::graph::BjkNodeId;

verus! {

/// The type of a parameter.
#[derive(Copy, Clone, PartialEq, Eq, Debug, Structural)]
pub enum DataType {
    Vector,
    Scalar,
    Selection,
    Mesh,
    String,
}

/// A Lua expression, kept as its source text.
pub struct LuaExpression(pub String);

/// Where an input takes its value from.
pub enum DependencyKind {
    /// The value of a Lua expression.
    Computed(LuaExpression),
    /// The value of an external parameter.
    External,
    /// The value of another node's output.
    Connection { node: BjkNodeId, param_name: String },
}

/// An input of a node.
pub struct Input {
    pub name: String,
    pub data_type: DataType,
    pub kind: DependencyKind,
}

/// An output of a node.
pub struct Output {
    pub name: String,
    pub data_type: DataType,
}

/// A node of the graph.
pub struct BjkNode {
    pub op_name: String,
    pub inputs: Vec<Input>,
    pub outputs: Vec<Output>,
}

} // verus!
