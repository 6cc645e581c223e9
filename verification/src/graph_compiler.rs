//! Names under which the external parameters of a graph are exposed.
use vstd::prelude::*;

use crate::graph::{
    first_input_named, has_input_named, key_debug_text, BjkGraph, BjkNodeId, DataType, GraphError,
};

verus! {

/// The address of an external parameter: a name unique in the graph.
#[derive(Debug, Clone, PartialEq, Eq, Hash)]
pub struct ExternalParamAddr(pub String);

/// An external parameter of a graph, with its address and type.
#[derive(Debug)]
pub struct ExternalParameterDef {
    pub addr: ExternalParamAddr,
    pub data_type: DataType,
    pub node_id: BjkNodeId,
    pub param_name: String,
}

/// The address of the parameter `param` of a node `op_name` with id `id`:
/// the three joined by underscores.
pub open spec fn param_addr_text(op_name: Seq<char>, id: BjkNodeId, param: Seq<char>) -> Seq<char> {
    op_name + seq!['_'] + key_debug_text(id.0) + seq!['_'] + param
}

impl ExternalParameterDef {
    /// The definition of the input `param` of the node `node_id`, which must
    /// exist; fails when the node has no such input.
    pub fn new(graph: &BjkGraph, node_id: BjkNodeId, param: &str) -> (r: Result<Self, GraphError>)
        requires
            graph.has_node(node_id),
        ensures
            !has_input_named(graph.node(node_id).inputs@, param@) <==> r is Err,
            r matches Err(e) ==> e matches GraphError::InputNotFound(n) && n@ == param@,
            r matches Ok(d) ==> {
                let inputs = graph.node(node_id).inputs@;
                &&& d.addr.0@ == param_addr_text(graph.node(node_id).op_name@, node_id, param@)
                &&& d.data_type == inputs[first_input_named(inputs, param@)].data_type
                &&& d.node_id == node_id
                &&& d.param_name@ == param@
            },
    {
        let node = graph.get_node(node_id);
        let i = match crate::graph::find_input(&node.inputs, param) {
            Some(i) => i,
            None => {
                return Err(GraphError::InputNotFound(String::from_str(param)));
            },
        };
        proof {
            let ins = node.inputs@;
            assert(has_input_named(ins, param@)) by {
                assert(ins[i as int].name@ == param@);
            }
            let f = first_input_named(ins, param@);
            if f < i {
                assert(ins[f].name@ != param@);
            } else if f > i {
                assert(ins[i as int].name@ != param@);
            }
        }
        let mut addr = node.op_name.clone();
        crate::text::push_char(&mut addr, '_');
        let id_text = node_id.display_id();
        addr.append(id_text.as_str());
        crate::text::push_char(&mut addr, '_');
        addr.append(param);
        assert(addr@ =~= param_addr_text(node.op_name@, node_id, param@));
        Ok(ExternalParameterDef {
            addr: ExternalParamAddr(addr),
            data_type: node.inputs[i].data_type,
            node_id,
            param_name: String::from_str(param),
        })
    }
}

} // verus!
