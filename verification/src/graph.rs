//! The node graph: nodes with typed inputs and outputs, and the connections
//! that feed an input from another node's output.
use vstd::prelude::*;

use slotmap::{DefaultKey, Key, KeyData, SlotMap};

use crate::halfedge::{key_norm, key_slot};
use crate::text::decimal;

verus! {

/// A Lua expression, kept as its source text.
pub struct LuaExpression(pub String);

/// Where an input takes its value from.
#[derive(Debug)]
pub enum DependencyKind {
    /// The value of an external parameter, from the inputs to the graph
    /// function itself. When promoted, the name shown to the user of the
    /// graph.
    External { promoted: Option<String> },
    /// The value of another node's output.
    Connection { node: BjkNodeId, param_name: String },
}

/// The type of a parameter.
#[derive(Copy, Clone, PartialEq, Eq, Debug, Structural)]
pub enum DataType {
    Vector,
    Scalar,
    Selection,
    Mesh,
    String,
    HeightMap,
}

impl DataType {
    /// Whether a value of this type can be rendered into a final artifact.
    pub fn can_be_enabled(&self) -> (r: bool)
        ensures
            r == (*self == DataType::Mesh || *self == DataType::HeightMap),
    {
        match self {
            DataType::Mesh | DataType::HeightMap => true,
            DataType::Vector | DataType::Scalar | DataType::Selection | DataType::String => false,
        }
    }
}

/// `s` and `t` hold the same text.
pub fn str_is(s: &str, t: &str) -> (r: bool)
    ensures
        r == (s@ == t@),
{
    String::from_str(s) == String::from_str(t)
}

/// The data type named by a type name of a node definition.
pub open spec fn spec_data_type_from_str(s: Seq<char>) -> Option<DataType> {
    if s == "vec3"@ {
        Some(DataType::Vector)
    } else if s == "scalar"@ {
        Some(DataType::Scalar)
    } else if s == "selection"@ {
        Some(DataType::Selection)
    } else if s == "mesh"@ {
        Some(DataType::Mesh)
    } else if s == "heightmap"@ {
        Some(DataType::HeightMap)
    } else if s == "enum"@ || s == "file"@ || s == "string"@ || s == "lua_string"@ {
        Some(DataType::String)
    } else {
        None
    }
}

/// Reads a type name of a node definition; `None` for an unknown name.
pub fn data_type_from_str(s: &str) -> (r: Option<DataType>)
    ensures
        r == spec_data_type_from_str(s@),
{
    if str_is(s, "vec3") {
        Some(DataType::Vector)
    } else if str_is(s, "scalar") {
        Some(DataType::Scalar)
    } else if str_is(s, "selection") {
        Some(DataType::Selection)
    } else if str_is(s, "mesh") {
        Some(DataType::Mesh)
    } else if str_is(s, "heightmap") {
        Some(DataType::HeightMap)
    } else if str_is(s, "enum") || str_is(s, "file") || str_is(s, "string") || str_is(s, "lua_string") {
        Some(DataType::String)
    } else {
        None
    }
}

/// An input of a node.
#[derive(Debug)]
pub struct InputParameter {
    pub name: String,
    pub data_type: DataType,
    pub kind: DependencyKind,
}

/// An output of a node.
#[derive(Debug)]
pub struct Output {
    pub name: String,
    pub data_type: DataType,
}

/// A node of the graph.
#[derive(Debug)]
pub struct BjkNode {
    pub op_name: String,
    /// When this node is the target of a graph, the name of the output
    /// parameter that should be displayed (typically, a mesh).
    pub return_value: Option<String>,
    pub inputs: Vec<InputParameter>,
    pub outputs: Vec<Output>,
}

/// The id of a node: the 64-bit form of its slot map key.
#[derive(Clone, Copy, Debug, PartialEq, Eq, Hash, PartialOrd, Ord, Structural)]
pub struct BjkNodeId(pub u64);

/// The text that `KeyData`'s `Debug` gives for the key `k`: `null` for the
/// null key, else the slot index, `v` and the (odd) version.
pub open spec fn key_debug_text(k: u64) -> Seq<char> {
    let idx = key_slot(k);
    let hi = k / 0x1_0000_0000u64;
    let version = if hi % 2 == 1 {
        hi
    } else {
        (hi + 1) as u64
    };
    if idx == 0xffff_ffffu64 {
        seq!['n', 'u', 'l', 'l']
    } else {
        decimal(idx as nat) + seq!['v'] + decimal(version as nat)
    }
}

/// The text that `KeyData::from_ffi(k)` prints with `Debug`: the slot index
/// and the version, which `from_ffi` makes odd, or `null` for the null key.
pub(crate) fn key_data_debug(k: u64) -> (r: String)
    ensures
        r@ == key_debug_text(k),
{
    let idx: u32 = (k % 0x1_0000_0000u64) as u32;
    let hi: u32 = (k / 0x1_0000_0000u64) as u32;
    let version: u32 = if hi % 2 == 1 {
        hi
    } else {
        hi + 1
    };
    let mut s = String::new();
    if idx == 0xffff_ffffu32 {
        crate::text::push_char(&mut s, 'n');
        crate::text::push_char(&mut s, 'u');
        crate::text::push_char(&mut s, 'l');
        crate::text::push_char(&mut s, 'l');
        assert(s@ =~= seq!['n', 'u', 'l', 'l']);
    } else {
        crate::text::push_decimal(&mut s, idx);
        crate::text::push_char(&mut s, 'v');
        crate::text::push_decimal(&mut s, version);
        assert(s@ =~= decimal(idx as nat) + seq!['v'] + decimal(version as nat));
    }
    s
}

impl BjkNodeId {
    /// A short text for the id, as its key prints.
    pub fn display_id(self) -> (r: String)
        ensures
            r@ == key_debug_text(self.0),
    {
        key_data_debug(self.0)
    }
}

/// How a file picker behaves.
#[derive(Debug, Copy, Clone, PartialEq, Eq, Structural)]
pub enum FilePathMode {
    /// Only an existing file can be picked.
    Open,
    /// A new or an existing file can be picked, with an overwrite warning.
    Save,
}

/// The definition of an output of a node type.
#[derive(Debug)]
pub struct OutputDefinition {
    pub name: String,
    pub data_type: DataType,
}

/// A `slotmap::SlotMap<DefaultKey, BjkNode>`, held privately.
#[verifier::external_body]
pub struct NodeSlots {
    inner: SlotMap<DefaultKey, BjkNode>,
}

/// The nodes in a node slot map, by 64-bit key (`KeyData::as_ffi`).
pub uninterp spec fn node_slots(m: NodeSlots) -> Map<u64, BjkNode>;

/// `SlotMap::new`: an empty map.
#[verifier::external_body]
pub(crate) fn node_slots_new() -> (r: NodeSlots)
    ensures
        forall|k: u64| !node_slots(r).dom().contains(k),
{
    NodeSlots { inner: SlotMap::new() }
}

/// `SlotMap::insert`: stores `v` under a fresh key, in a vacant or a new
/// slot, and returns the key. Panics when the map is full, which needs more
/// than `u32::MAX - 1` elements, excluded here.
#[verifier::external_body]
pub(crate) fn node_slots_insert(m: &mut NodeSlots, v: BjkNode) -> (k: u64)
    requires
        node_slots(*old(m)).dom().len() + 2 < 0x1_0000_0000,
    ensures
        !node_slots(*old(m)).dom().contains(k),
        key_norm(k) == k,
        key_slot(k) < 0xffff_ffff,
        forall|j: u64| node_slots(*old(m)).dom().contains(j) ==> key_slot(j) != key_slot(k),
        node_slots(*final(m)) == node_slots(*old(m)).insert(k, v),
{
    m.inner.insert(v).data().as_ffi()
}

/// `SlotMap::get` with the key `KeyData::from_ffi(k)`, which reads the entry
/// under `key_norm(k)`.
#[verifier::external_body]
pub(crate) fn node_slots_get(m: &NodeSlots, k: u64) -> (r: Option<&BjkNode>)
    ensures
        match node_slots(*m).get(key_norm(k)) {
            Some(n) => r matches Some(x) && *x == n,
            None => r is None,
        },
{
    m.inner.get(DefaultKey::from(KeyData::from_ffi(k)))
}

/// `SlotMap::get_mut` with the key `KeyData::from_ffi(k)`, unwrapped: the
/// entry under `key_norm(k)`, which must exist.
#[verifier::external_body]
pub(crate) fn node_slots_get_mut(m: &mut NodeSlots, k: u64) -> (r: &mut BjkNode)
    requires
        node_slots(*old(m)).dom().contains(key_norm(k)),
    ensures
        *r == node_slots(*old(m))[key_norm(k)],
        node_slots(*final(m)) == node_slots(*old(m)).insert(key_norm(k), *final(r)),
{
    m.inner.get_mut(DefaultKey::from(KeyData::from_ffi(k))).unwrap()
}

/// `SlotMap::len`: the number of nodes in the map.
#[verifier::external_body]
pub(crate) fn node_slots_len(m: &NodeSlots) -> (r: usize)
    ensures
        r == node_slots(*m).dom().len(),
{
    m.inner.len()
}

/// `SlotMap::keys`: every key once, in the order of the slots. No key of a
/// slot map is the null key, and the version of an occupied slot is odd.
#[verifier::external_body]
pub(crate) fn node_slots_keys(m: &NodeSlots) -> (r: Vec<u64>)
    ensures
        forall|i: int| 0 <= i < r@.len() ==> node_slots(*m).dom().contains(#[trigger] r@[i]),
        forall|i: int| 0 <= i < r@.len() ==> key_slot(#[trigger] r@[i]) < 0xffff_ffff,
        forall|i: int| 0 <= i < r@.len() ==> key_norm(#[trigger] r@[i]) == r@[i],
        forall|k: u64| node_slots(*m).dom().contains(k) ==> r@.contains(k),
        forall|i: int, j: int|
            0 <= i < j < r@.len() ==> key_slot(#[trigger] r@[i]) < key_slot(#[trigger] r@[j]),
{
    m.inner.keys().map(|k| k.data().as_ffi()).collect()
}

/// A node graph.
pub struct BjkGraph {
    pub nodes: NodeSlots,
    /// When the graph is run, this is the node that will be executed by
    /// default.
    pub default_node: Option<BjkNodeId>,
}

/// An input with the name `name` is among `inputs`.
pub open spec fn has_input_named(inputs: Seq<InputParameter>, name: Seq<char>) -> bool {
    exists|i: int| 0 <= i < inputs.len() && (#[trigger] inputs[i]).name@ == name
}

/// An output with the name `name` is among `outputs`.
pub open spec fn has_output_named(outputs: Seq<Output>, name: Seq<char>) -> bool {
    exists|i: int| 0 <= i < outputs.len() && (#[trigger] outputs[i]).name@ == name
}

/// The position of the first output named `name`.
pub open spec fn first_output_named(outputs: Seq<Output>, name: Seq<char>) -> int {
    choose|i: int|
        0 <= i < outputs.len() && outputs[i].name@ == name && forall|j: int|
            0 <= j < i ==> (#[trigger] outputs[j]).name@ != name
}

/// The position of the first input named `name`.
pub open spec fn first_input_named(inputs: Seq<InputParameter>, name: Seq<char>) -> int {
    choose|i: int|
        0 <= i < inputs.len() && inputs[i].name@ == name && forall|j: int|
            0 <= j < i ==> (#[trigger] inputs[j]).name@ != name
}

/// Why a graph edit was refused.
#[derive(Debug, PartialEq, Eq)]
pub enum GraphError {
    /// The node already has an input with this name.
    InputExists(String),
    /// The node already has an output with this name.
    OutputExists(String),
    /// The source node has no output with this name.
    OutputNotFound(String),
    /// The destination node has no input with this name.
    InputNotFound(String),
    /// The input's type (first) differs from the output's (second).
    IncompatibleTypes(DataType, DataType),
}

/// The position of the first element named `name`, in the first `n` names.
fn find_name(names: &Vec<String>, name: &str) -> (r: Option<usize>)
    ensures
        match r {
            Some(i) => i < names@.len() && names@[i as int]@ == name@ && forall|j: int|
                0 <= j < i ==> (#[trigger] names@[j])@ != name@,
            None => forall|j: int| 0 <= j < names@.len() ==> (#[trigger] names@[j])@ != name@,
        },
{
    let target = String::from_str(name);
    let mut i: usize = 0;
    while i < names.len()
        invariant
            target@ == name@,
            i <= names@.len(),
            forall|j: int| 0 <= j < i ==> (#[trigger] names@[j])@ != name@,
        decreases names@.len() - i,
    {
        if names[i] == target {
            return Some(i);
        }
        i += 1;
    }
    None
}

/// The position of the first input named `name`.
pub(crate) fn find_input(inputs: &Vec<InputParameter>, name: &str) -> (r: Option<usize>)
    ensures
        match r {
            Some(i) => i < inputs@.len() && inputs@[i as int].name@ == name@ && forall|j: int|
                0 <= j < i ==> (#[trigger] inputs@[j]).name@ != name@,
            None => !has_input_named(inputs@, name@),
        },
{
    let target = String::from_str(name);
    let mut i: usize = 0;
    while i < inputs.len()
        invariant
            target@ == name@,
            i <= inputs@.len(),
            forall|j: int| 0 <= j < i ==> (#[trigger] inputs@[j]).name@ != name@,
        decreases inputs@.len() - i,
    {
        if inputs[i].name == target {
            return Some(i);
        }
        i += 1;
    }
    None
}

/// The position of the first output named `name`.
fn find_output(outputs: &Vec<Output>, name: &str) -> (r: Option<usize>)
    ensures
        match r {
            Some(i) => i < outputs@.len() && outputs@[i as int].name@ == name@ && forall|j: int|
                0 <= j < i ==> (#[trigger] outputs@[j]).name@ != name@,
            None => !has_output_named(outputs@, name@),
        },
{
    let target = String::from_str(name);
    let mut i: usize = 0;
    while i < outputs.len()
        invariant
            target@ == name@,
            i <= outputs@.len(),
            forall|j: int| 0 <= j < i ==> (#[trigger] outputs@[j]).name@ != name@,
        decreases outputs@.len() - i,
    {
        if outputs[i].name == target {
            return Some(i);
        }
        i += 1;
    }
    None
}

impl BjkGraph {
    pub open spec fn nodes_map(&self) -> Map<u64, BjkNode> {
        node_slots(self.nodes)
    }

    pub open spec fn has_node(&self, id: BjkNodeId) -> bool {
        self.nodes_map().dom().contains(key_norm(id.0))
    }

    pub open spec fn node(&self, id: BjkNodeId) -> BjkNode {
        self.nodes_map()[key_norm(id.0)]
    }

    /// The node with id `id`, which must exist (indexing panics otherwise).
    pub fn get_node(&self, id: BjkNodeId) -> (r: &BjkNode)
        requires
            self.has_node(id),
        ensures
            *r == self.node(id),
    {
        node_slots_get(&self.nodes, id.0).unwrap()
    }

    /// An empty graph.
    pub fn new() -> (r: BjkGraph)
        ensures
            r.nodes_map() == Map::<u64, BjkNode>::empty(),
            r.default_node is None,
    {
        let r = BjkGraph { nodes: node_slots_new(), default_node: None };
        assert(r.nodes_map() =~= Map::<u64, BjkNode>::empty());
        r
    }

    /// Adds a node with no inputs or outputs and returns its id.
    pub fn add_node(&mut self, op_name: &str, return_value: Option<String>) -> (r: BjkNodeId)
        requires
            old(self).nodes_map().dom().len() + 2 < 0x1_0000_0000,
        ensures
            !old(self).nodes_map().dom().contains(r.0),
            key_norm(r.0) == r.0,
            final(self).nodes_map() == old(self).nodes_map().insert(r.0, final(self).nodes_map()[r.0]),
            final(self).nodes_map()[r.0].op_name@ == op_name@,
            final(self).nodes_map()[r.0].return_value == return_value,
            final(self).nodes_map()[r.0].inputs@ == Seq::<InputParameter>::empty(),
            final(self).nodes_map()[r.0].outputs@ == Seq::<Output>::empty(),
            final(self).default_node == old(self).default_node,
    {
        let node = BjkNode {
            op_name: String::from_str(op_name),
            return_value,
            inputs: Vec::new(),
            outputs: Vec::new(),
        };
        let k = node_slots_insert(&mut self.nodes, node);
        BjkNodeId(k)
    }

    /// Registers an input for `node_id`, fed by an external parameter. Fails
    /// when the node has an input with that name already.
    pub fn add_input(&mut self, node_id: BjkNodeId, name: &str, data_type: DataType, promoted: Option<String>) -> (r: Result<(), GraphError>)
        requires
            old(self).has_node(node_id),
        ensures
            final(self).default_node == old(self).default_node,
            final(self).nodes_map().dom() == old(self).nodes_map().dom(),
            forall|k: u64| k != key_norm(node_id.0) ==> #[trigger] final(self).nodes_map().get(k) == old(self).nodes_map().get(k),
            final(self).node(node_id).op_name == old(self).node(node_id).op_name,
            final(self).node(node_id).return_value == old(self).node(node_id).return_value,
            final(self).node(node_id).outputs == old(self).node(node_id).outputs,
            match r {
                Ok(()) => {
                    &&& !has_input_named(old(self).node(node_id).inputs@, name@)
                    &&& final(self).node(node_id).inputs@.len() == old(self).node(node_id).inputs@.len() + 1
                    &&& final(self).node(node_id).inputs@.drop_last() == old(self).node(node_id).inputs@
                    &&& final(self).node(node_id).inputs@.last().name@ == name@
                    &&& final(self).node(node_id).inputs@.last().data_type == data_type
                    &&& final(self).node(node_id).inputs@.last().kind == DependencyKind::External { promoted }
                },
                Err(e) => {
                    &&& has_input_named(old(self).node(node_id).inputs@, name@)
                    &&& e matches GraphError::InputExists(n) && n@ == name@
                    &&& final(self).node(node_id) == old(self).node(node_id)
                },
            },
    {
        let ghost m0 = self.nodes_map();
        let node = node_slots_get_mut(&mut self.nodes, node_id.0);
        match find_input(&node.inputs, name) {
            Some(i) => {
                assert(has_input_named(node.inputs@, name@)) by {
                    assert(node.inputs@[i as int].name@ == name@);
                }
                proof {
                    assert(m0.insert(key_norm(node_id.0), m0[key_norm(node_id.0)]) =~= m0);
                }
                Err(GraphError::InputExists(String::from_str(name)))
            },
            None => {
                let ghost before = node.inputs@;
                node.inputs.push(InputParameter {
                    name: String::from_str(name),
                    data_type,
                    kind: DependencyKind::External { promoted },
                });
                assert(node.inputs@.drop_last() =~= before);
                Ok(())
            },
        }
    }

    /// Registers an output for `node_id`. Fails when the node has an output
    /// with that name already.
    pub fn add_output(&mut self, node_id: BjkNodeId, name: &str, data_type: DataType) -> (r: Result<(), GraphError>)
        requires
            old(self).has_node(node_id),
        ensures
            final(self).default_node == old(self).default_node,
            final(self).nodes_map().dom() == old(self).nodes_map().dom(),
            forall|k: u64| k != key_norm(node_id.0) ==> #[trigger] final(self).nodes_map().get(k) == old(self).nodes_map().get(k),
            final(self).node(node_id).op_name == old(self).node(node_id).op_name,
            final(self).node(node_id).return_value == old(self).node(node_id).return_value,
            final(self).node(node_id).inputs == old(self).node(node_id).inputs,
            match r {
                Ok(()) => {
                    &&& !has_output_named(old(self).node(node_id).outputs@, name@)
                    &&& final(self).node(node_id).outputs@.len() == old(self).node(node_id).outputs@.len() + 1
                    &&& final(self).node(node_id).outputs@.drop_last() == old(self).node(node_id).outputs@
                    &&& final(self).node(node_id).outputs@.last().name@ == name@
                    &&& final(self).node(node_id).outputs@.last().data_type == data_type
                },
                Err(e) => {
                    &&& has_output_named(old(self).node(node_id).outputs@, name@)
                    &&& e matches GraphError::OutputExists(n) && n@ == name@
                    &&& final(self).node(node_id) == old(self).node(node_id)
                },
            },
    {
        let ghost m0 = self.nodes_map();
        let node = node_slots_get_mut(&mut self.nodes, node_id.0);
        match find_output(&node.outputs, name) {
            Some(i) => {
                assert(has_output_named(node.outputs@, name@)) by {
                    assert(node.outputs@[i as int].name@ == name@);
                }
                proof {
                    assert(m0.insert(key_norm(node_id.0), m0[key_norm(node_id.0)]) =~= m0);
                }
                Err(GraphError::OutputExists(String::from_str(name)))
            },
            None => {
                let ghost before = node.outputs@;
                node.outputs.push(Output { name: String::from_str(name), data_type });
                assert(node.outputs@.drop_last() =~= before);
                Ok(())
            },
        }
    }

    /// Feeds the `dst_param` input of `dst_node` from the `src_param` output
    /// of `src_node`. The first output and the first input with those names
    /// are used; their types must agree.
    pub fn add_connection(&mut self, src_node: BjkNodeId, src_param: &str, dst_node: BjkNodeId, dst_param: &str) -> (r: Result<(), GraphError>)
        requires
            old(self).has_node(src_node),
            old(self).has_node(dst_node),
        ensures
            final(self).default_node == old(self).default_node,
            final(self).nodes_map().dom() == old(self).nodes_map().dom(),
            forall|k: u64| k != key_norm(dst_node.0) ==> #[trigger] final(self).nodes_map().get(k) == old(self).nodes_map().get(k),
            !has_output_named(old(self).node(src_node).outputs@, src_param@) <==> (r matches Err(GraphError::OutputNotFound(_))),
            r matches Err(GraphError::OutputNotFound(n)) ==> n@ == src_param@,
            has_output_named(old(self).node(src_node).outputs@, src_param@) ==> {
                let out = old(self).node(src_node).outputs@[first_output_named(old(self).node(src_node).outputs@, src_param@)];
                let ins = old(self).node(dst_node).inputs@;
                &&& (!has_input_named(ins, dst_param@) <==> (r matches Err(GraphError::InputNotFound(_))))
                &&& (r matches Err(GraphError::InputNotFound(n)) ==> n@ == dst_param@)
                &&& has_input_named(ins, dst_param@) ==> {
                    let i = first_input_named(ins, dst_param@);
                    &&& (ins[i].data_type != out.data_type <==> r == Err::<(), GraphError>(
                        GraphError::IncompatibleTypes(ins[i].data_type, out.data_type),
                    ))
                    &&& (ins[i].data_type == out.data_type <==> r is Ok)
                    &&& r is Ok ==> {
                        &&& final(self).node(dst_node).op_name == old(self).node(dst_node).op_name
                        &&& final(self).node(dst_node).return_value == old(self).node(dst_node).return_value
                        &&& final(self).node(dst_node).outputs == old(self).node(dst_node).outputs
                        &&& final(self).node(dst_node).inputs@.len() == ins.len()
                        &&& forall|j: int| 0 <= j < ins.len() && j != i ==> #[trigger] final(self).node(dst_node).inputs@[j] == ins[j]
                        &&& final(self).node(dst_node).inputs@[i].name == ins[i].name
                        &&& final(self).node(dst_node).inputs@[i].data_type == ins[i].data_type
                        &&& (final(self).node(dst_node).inputs@[i].kind matches DependencyKind::Connection { node, param_name }
                            && node == src_node && param_name@ == src_param@)
                    }
                }
            },
            r is Err ==> final(self).nodes_map() == old(self).nodes_map(),
    {
        let ghost m0 = self.nodes_map();
        let src_type = match node_slots_get(&self.nodes, src_node.0) {
            Some(src) => match find_output(&src.outputs, src_param) {
                Some(o) => {
                    proof {
                        let outs = src.outputs@;
                        assert(has_output_named(outs, src_param@)) by {
                            assert(outs[o as int].name@ == src_param@);
                        }
                        let f = first_output_named(outs, src_param@);
                        if f < o {
                            assert(outs[f].name@ != src_param@);
                        } else if f > o {
                            assert(outs[o as int].name@ != src_param@);
                        }
                    }
                    src.outputs[o].data_type
                },
                None => {
                    return Err(GraphError::OutputNotFound(String::from_str(src_param)));
                },
            },
            None => {
                return Err(GraphError::OutputNotFound(String::from_str(src_param)));
            },
        };
        let found = match node_slots_get(&self.nodes, dst_node.0) {
            Some(dst) => {
                match find_input(&dst.inputs, dst_param) {
                    Some(i) => {
                        proof {
                            let ins = dst.inputs@;
                            assert(has_input_named(ins, dst_param@)) by {
                                assert(ins[i as int].name@ == dst_param@);
                            }
                            let f = first_input_named(ins, dst_param@);
                            if f < i {
                                assert(ins[f].name@ != dst_param@);
                            } else if f > i {
                                assert(ins[i as int].name@ != dst_param@);
                            }
                        }
                        let t = dst.inputs[i].data_type;
                        if t != src_type {
                            return Err(GraphError::IncompatibleTypes(t, src_type));
                        }
                        i
                    },
                    None => {
                        return Err(GraphError::InputNotFound(String::from_str(dst_param)));
                    },
                }
            },
            None => {
                return Err(GraphError::InputNotFound(String::from_str(dst_param)));
            },
        };
        let node = node_slots_get_mut(&mut self.nodes, dst_node.0);
        let ghost ins = node.inputs@;
        let mut input = node.inputs.remove(found);
        input.kind = DependencyKind::Connection { node: src_node, param_name: String::from_str(src_param) };
        node.inputs.insert(found, input);
        proof {
            assert forall|j: int| 0 <= j < ins.len() && j != found implies #[trigger] node.inputs@[j] == ins[j] by {
                if j < found {
                } else {
                }
            }
        }
        Ok(())
    }
}

} // verus!
