//! The data that the node graph editor keeps for each node.
use vstd::prelude::*;

verus! {

/// The data types that the editor shows.
#[derive(Copy, Clone, PartialEq, Eq, Debug, Structural)]
pub enum DataType {
    Vector,
    Scalar,
    Selection,
    Mesh,
    Enum,
    /// The path to a (possibly new) file where export contents will be saved.
    NewFile,
    String,
}

/// A data type as the editor's node graph sees it.
#[derive(Copy, Clone, PartialEq, Eq, Debug, Structural)]
pub struct DataTypeUi(pub DataType);

/// The editor's data for a node.
#[derive(Debug)]
pub struct NodeData {
    pub op_name: String,
    pub returns: Option<String>,
    pub is_executable: bool,
}

/// The definition of an output of a node type.
#[derive(Debug)]
pub struct OutputDefinition {
    pub name: String,
    pub data_type: DataType,
}

} // verus!
