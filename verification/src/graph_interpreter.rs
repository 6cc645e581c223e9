//! Running a graph: which nodes run, and in what order, to compute a target
//! node. A node runs once its connected inputs are computed; each node runs
//! at most once, and the values of external parameters must be given. The
//! Lua code of each node is run by the caller, in the order decided here.
use vstd::prelude::*;

use crate::graph::{node_slots_len, BjkGraph, BjkNode, BjkNodeId, DependencyKind, InputParameter};

verus! {

/// An input of a node whose value comes from outside the graph.
#[derive(Debug, PartialEq, Eq, Hash)]
pub struct ExternalParameter {
    pub node_id: BjkNodeId,
    pub param_name: String,
}

impl ExternalParameter {
    pub fn new(node_id: BjkNodeId, param_name: String) -> (r: Self)
        ensures
            r.node_id == node_id,
            r.param_name == param_name,
    {
        ExternalParameter { node_id, param_name }
    }
}

/// Why a node could not be run.
#[derive(Debug)]
pub enum InterpreterError {
    /// The graph has no node with this id.
    NodeNotFound(BjkNodeId),
    /// No node definition has this operation name.
    NodeDefinitionNotFound(String),
    /// No value was given for the external parameter of this node with
    /// this name.
    MissingExternalParameter(BjkNodeId, String),
    /// Computing this node needs this node itself.
    DependencyCycle(BjkNodeId),
}

/// The state of a run: the nodes whose outputs are computed, and what the
/// run may read.
pub struct InterpreterContext {
    /// The nodes that have run, in the order they ran.
    pub outputs_cache: Vec<BjkNodeId>,
    /// The external parameters that have a value.
    pub external_params: Vec<ExternalParameter>,
    /// The operation names of the known node definitions.
    pub node_definitions: Vec<String>,
}

/// A value is given for the parameter `name` of node `n`.
pub open spec fn has_param(ps: Seq<ExternalParameter>, n: BjkNodeId, name: Seq<char>) -> bool {
    exists|i: int| 0 <= i < ps.len() && (#[trigger] ps[i]).node_id == n && ps[i].param_name@ == name
}

/// A node definition named `op` is known.
pub open spec fn knows_op(defs: Seq<String>, op: Seq<char>) -> bool {
    exists|i: int| 0 <= i < defs.len() && (#[trigger] defs[i])@ == op
}

/// `a` and `b` are the same error, strings compared by their text.
pub open spec fn same_error(a: InterpreterError, b: InterpreterError) -> bool {
    match (a, b) {
        (InterpreterError::NodeNotFound(x), InterpreterError::NodeNotFound(y)) => x == y,
        (InterpreterError::NodeDefinitionNotFound(x), InterpreterError::NodeDefinitionNotFound(y)) => x@ == y@,
        (
            InterpreterError::MissingExternalParameter(x, s),
            InterpreterError::MissingExternalParameter(y, t),
        ) => x == y && s@ == t@,
        (InterpreterError::DependencyCycle(x), InterpreterError::DependencyCycle(y)) => x == y,
        _ => false,
    }
}

/// Running node `n` when the nodes `done` have run: the nodes that have run
/// afterwards, in order, or the error. A node runs after its inputs, in the
/// order of its inputs: a connected input runs its source node unless that
/// has run, an external input needs a value. `depth` bounds how deep the
/// runs nest.
pub open spec fn run_outcome(
    g: BjkGraph,
    defs: Seq<String>,
    ps: Seq<ExternalParameter>,
    depth: nat,
    done: Seq<BjkNodeId>,
    n: BjkNodeId,
) -> Result<Seq<BjkNodeId>, InterpreterError>
    decreases depth, 0nat,
{
    if !g.has_node(n) {
        Err(InterpreterError::NodeNotFound(n))
    } else if depth == 0 {
        Err(InterpreterError::DependencyCycle(n))
    } else if !knows_op(defs, g.node(n).op_name@) {
        Err(InterpreterError::NodeDefinitionNotFound(g.node(n).op_name))
    } else {
        match inputs_outcome(g, defs, ps, (depth - 1) as nat, done, n, g.node(n).inputs@, 0) {
            Ok(d) => Ok(d.push(n)),
            Err(e) => Err(e),
        }
    }
}

/// Computing the inputs of node `n` from the `i`-th on, when the nodes
/// `done` have run.
pub open spec fn inputs_outcome(
    g: BjkGraph,
    defs: Seq<String>,
    ps: Seq<ExternalParameter>,
    depth: nat,
    done: Seq<BjkNodeId>,
    n: BjkNodeId,
    ins: Seq<InputParameter>,
    i: int,
) -> Result<Seq<BjkNodeId>, InterpreterError>
    decreases depth, ins.len() - i,
{
    if i < 0 || i >= ins.len() {
        Ok(done)
    } else {
        match ins[i].kind {
            DependencyKind::Connection { node: c, param_name: _ } => if done.contains(c) {
                inputs_outcome(g, defs, ps, depth, done, n, ins, i + 1)
            } else {
                match run_outcome(g, defs, ps, depth, done, c) {
                    Ok(d) => inputs_outcome(g, defs, ps, depth, d, n, ins, i + 1),
                    Err(e) => Err(e),
                }
            },
            DependencyKind::External { promoted: _ } => if has_param(ps, n, ins[i].name@) {
                inputs_outcome(g, defs, ps, depth, done, n, ins, i + 1)
            } else {
                Err(InterpreterError::MissingExternalParameter(n, ins[i].name))
            },
        }
    }
}

/// A successful run keeps the nodes that had run, in front and in order,
/// adds only nodes of the graph, and ends with the node that was asked for.
pub proof fn lemma_run_extends(
    g: BjkGraph,
    defs: Seq<String>,
    ps: Seq<ExternalParameter>,
    depth: nat,
    done: Seq<BjkNodeId>,
    n: BjkNodeId,
)
    requires
        run_outcome(g, defs, ps, depth, done, n) is Ok,
    ensures
        ({
            let d = run_outcome(g, defs, ps, depth, done, n)->Ok_0;
            &&& done.len() < d.len()
            &&& d.subrange(0, done.len() as int) == done
            &&& d.last() == n
            &&& forall|j: int| done.len() <= j < d.len() ==> g.has_node(#[trigger] d[j])
        }),
    decreases depth, 0nat,
{
    lemma_inputs_extend(g, defs, ps, (depth - 1) as nat, done, n, g.node(n).inputs@, 0);
    let d0 = inputs_outcome(g, defs, ps, (depth - 1) as nat, done, n, g.node(n).inputs@, 0)->Ok_0;
    let d = d0.push(n);
    assert(d.subrange(0, done.len() as int) =~= d0.subrange(0, done.len() as int));
    assert forall|j: int| done.len() <= j < d.len() implies g.has_node(#[trigger] d[j]) by {
        if j < d0.len() {
            assert(d[j] == d0[j]);
        }
    }
}

/// `rank` orders the nodes of `g` against its connections: the source of
/// each connected input of a node has a lower rank than the node. Such a
/// ranking exists exactly when the connections make no cycle.
pub open spec fn ranked(g: BjkGraph, rank: spec_fn(BjkNodeId) -> nat) -> bool {
    forall|m: BjkNodeId, i: int|
        #![trigger g.node(m).inputs@[i]]
        g.has_node(m) && 0 <= i < g.node(m).inputs@.len() ==> match g.node(m).inputs@[i].kind {
            DependencyKind::Connection { node: c, param_name: _ } => g.has_node(c) ==> rank(c) < rank(m),
            DependencyKind::External { promoted: _ } => true,
        }
}

/// In a graph whose connections make no cycle, a run that may nest deeper
/// than the rank of the node it starts from never reports a cycle.
pub proof fn lemma_ranked_no_cycle(
    g: BjkGraph,
    defs: Seq<String>,
    ps: Seq<ExternalParameter>,
    rank: spec_fn(BjkNodeId) -> nat,
    depth: nat,
    done: Seq<BjkNodeId>,
    n: BjkNodeId,
)
    requires
        ranked(g, rank),
        g.has_node(n) ==> rank(n) < depth,
    ensures
        !(run_outcome(g, defs, ps, depth, done, n) matches Err(InterpreterError::DependencyCycle(_))),
    decreases depth, 0nat,
{
    if g.has_node(n) && depth > 0 && knows_op(defs, g.node(n).op_name@) {
        lemma_inputs_ranked_no_cycle(g, defs, ps, rank, (depth - 1) as nat, done, n, g.node(n).inputs@, 0);
    }
}

/// The inputs of a ranked node, computed with room for its rank, report no
/// cycle.
proof fn lemma_inputs_ranked_no_cycle(
    g: BjkGraph,
    defs: Seq<String>,
    ps: Seq<ExternalParameter>,
    rank: spec_fn(BjkNodeId) -> nat,
    depth: nat,
    done: Seq<BjkNodeId>,
    n: BjkNodeId,
    ins: Seq<InputParameter>,
    i: int,
)
    requires
        ranked(g, rank),
        g.has_node(n),
        ins == g.node(n).inputs@,
        rank(n) <= depth,
    ensures
        !(inputs_outcome(g, defs, ps, depth, done, n, ins, i) matches Err(InterpreterError::DependencyCycle(_))),
    decreases depth, ins.len() - i,
{
    if 0 <= i < ins.len() {
        assert(g.node(n).inputs@[i] == ins[i]);
        match ins[i].kind {
            DependencyKind::Connection { node: c, param_name: _ } => {
                if done.contains(c) {
                    lemma_inputs_ranked_no_cycle(g, defs, ps, rank, depth, done, n, ins, i + 1);
                } else {
                    lemma_ranked_no_cycle(g, defs, ps, rank, depth, done, c);
                    if let Ok(d) = run_outcome(g, defs, ps, depth, done, c) {
                        lemma_inputs_ranked_no_cycle(g, defs, ps, rank, depth, d, n, ins, i + 1);
                    }
                }
            },
            DependencyKind::External { promoted: _ } => {
                lemma_inputs_ranked_no_cycle(g, defs, ps, rank, depth, done, n, ins, i + 1);
            },
        }
    }
}

/// Computing inputs keeps the nodes that had run, in front and in order,
/// and adds only nodes of the graph.
pub proof fn lemma_inputs_extend(
    g: BjkGraph,
    defs: Seq<String>,
    ps: Seq<ExternalParameter>,
    depth: nat,
    done: Seq<BjkNodeId>,
    n: BjkNodeId,
    ins: Seq<InputParameter>,
    i: int,
)
    requires
        inputs_outcome(g, defs, ps, depth, done, n, ins, i) is Ok,
    ensures
        ({
            let d = inputs_outcome(g, defs, ps, depth, done, n, ins, i)->Ok_0;
            &&& done.len() <= d.len()
            &&& d.subrange(0, done.len() as int) == done
            &&& forall|j: int| done.len() <= j < d.len() ==> g.has_node(#[trigger] d[j])
        }),
    decreases depth, ins.len() - i,
{
    if i < 0 || i >= ins.len() {
        assert(done.subrange(0, done.len() as int) =~= done);
    } else {
        match ins[i].kind {
            DependencyKind::Connection { node: c, param_name: _ } => if done.contains(c) {
                lemma_inputs_extend(g, defs, ps, depth, done, n, ins, i + 1);
            } else {
                lemma_run_extends(g, defs, ps, depth, done, c);
                let d1 = run_outcome(g, defs, ps, depth, done, c)->Ok_0;
                lemma_inputs_extend(g, defs, ps, depth, d1, n, ins, i + 1);
                let d = inputs_outcome(g, defs, ps, depth, d1, n, ins, i + 1)->Ok_0;
                assert(d.subrange(0, done.len() as int) =~= d.subrange(0, d1.len() as int).subrange(0, done.len() as int));
                assert forall|j: int| done.len() <= j < d.len() implies g.has_node(#[trigger] d[j]) by {
                    if j < d1.len() {
                        assert(d[j] == d.subrange(0, d1.len() as int)[j]);
                        assert(g.has_node(d1[j]));
                    }
                }
            },
            DependencyKind::External { promoted: _ } => {
                lemma_inputs_extend(g, defs, ps, depth, done, n, ins, i + 1);
            },
        }
    }
}

/// Every connected input of the nodes from position `from` on in `d` is
/// fed by a node that comes earlier in `d`.
pub open spec fn deps_before(g: BjkGraph, d: Seq<BjkNodeId>, from: int) -> bool {
    forall|j: int, q: int|
        #![trigger g.node(d[j]).inputs@[q]]
        from <= j < d.len() && 0 <= q < g.node(d[j]).inputs@.len() ==> (g.node(d[j]).inputs@[q].kind matches DependencyKind::Connection { node: c, param_name: _ }
            ==> exists|p: int| 0 <= p < j && #[trigger] d[p] == c)
}

/// The connected inputs from the `i`-th on are fed by nodes in `d`.
pub open spec fn sources_in(ins: Seq<InputParameter>, i: int, d: Seq<BjkNodeId>) -> bool {
    forall|q: int| #![trigger ins[q]] i <= q < ins.len() ==> (ins[q].kind matches DependencyKind::Connection { node: c, param_name: _ } ==> d.contains(c))
}

/// Appending to `d` keeps the earlier nodes' sources earlier.
proof fn lemma_deps_extend(g: BjkGraph, d: Seq<BjkNodeId>, e: Seq<BjkNodeId>, from: int, to: int)
    requires
        0 <= from,
        deps_before(g, d, from),
        d.len() <= e.len(),
        e.subrange(0, d.len() as int) == d,
        to == d.len(),
    ensures
        forall|j: int, q: int|
            #![trigger g.node(e[j]).inputs@[q]]
            from <= j < to && 0 <= q < g.node(e[j]).inputs@.len() ==> (g.node(e[j]).inputs@[q].kind matches DependencyKind::Connection { node: c, param_name: _ }
                ==> exists|p: int| 0 <= p < j && #[trigger] e[p] == c),
{
    assert forall|j: int, q: int|
        #![trigger g.node(e[j]).inputs@[q]]
        from <= j < to && 0 <= q < g.node(e[j]).inputs@.len() implies (g.node(e[j]).inputs@[q].kind matches DependencyKind::Connection { node: c, param_name: _ }
            ==> exists|p: int| 0 <= p < j && #[trigger] e[p] == c) by {
        assert(e[j] == e.subrange(0, d.len() as int)[j]);
        assert(e[j] == d[j]);
        if let DependencyKind::Connection { node: c, param_name: _ } = g.node(e[j]).inputs@[q].kind {
            assert(g.node(d[j]).inputs@[q] == g.node(e[j]).inputs@[q]);
            let p = choose|p: int| 0 <= p < j && #[trigger] d[p] == c;
            assert(e[p] == e.subrange(0, d.len() as int)[p]);
        }
    }
}

/// A successful run computes every node after the nodes that feed its
/// connected inputs.
pub proof fn lemma_run_deps_first(
    g: BjkGraph,
    defs: Seq<String>,
    ps: Seq<ExternalParameter>,
    depth: nat,
    done: Seq<BjkNodeId>,
    n: BjkNodeId,
)
    requires
        run_outcome(g, defs, ps, depth, done, n) is Ok,
    ensures
        deps_before(g, run_outcome(g, defs, ps, depth, done, n)->Ok_0, done.len() as int),
    decreases depth, 0nat,
{
    let ins = g.node(n).inputs@;
    let o = inputs_outcome(g, defs, ps, (depth - 1) as nat, done, n, ins, 0);
    lemma_inputs_deps_first(g, defs, ps, (depth - 1) as nat, done, n, ins, 0);
    lemma_inputs_extend(g, defs, ps, (depth - 1) as nat, done, n, ins, 0);
    let d0 = o->Ok_0;
    let d = d0.push(n);
    assert(d.subrange(0, d0.len() as int) =~= d0);
    lemma_deps_extend(g, d0, d, done.len() as int, d0.len() as int);
    assert forall|j: int, q: int|
        #![trigger g.node(d[j]).inputs@[q]]
        done.len() <= j < d.len() && 0 <= q < g.node(d[j]).inputs@.len() implies (g.node(d[j]).inputs@[q].kind matches DependencyKind::Connection { node: c, param_name: _ }
            ==> exists|p: int| 0 <= p < j && #[trigger] d[p] == c) by {
        if j == d0.len() {
            assert(d[j] == n);
            if let DependencyKind::Connection { node: c, param_name: _ } = g.node(d[j]).inputs@[q].kind {
                assert(ins[q] == g.node(d[j]).inputs@[q]);
                assert(d0.contains(c));
                let p = choose|p: int| 0 <= p < d0.len() && d0[p] == c;
                assert(d[p] == c);
            }
        }
    }
}

/// Computing the inputs from the `i`-th on computes every new node after
/// the nodes feeding it, and leaves the sources of those inputs computed.
pub proof fn lemma_inputs_deps_first(
    g: BjkGraph,
    defs: Seq<String>,
    ps: Seq<ExternalParameter>,
    depth: nat,
    done: Seq<BjkNodeId>,
    n: BjkNodeId,
    ins: Seq<InputParameter>,
    i: int,
)
    requires
        inputs_outcome(g, defs, ps, depth, done, n, ins, i) is Ok,
    ensures
        deps_before(g, inputs_outcome(g, defs, ps, depth, done, n, ins, i)->Ok_0, done.len() as int),
        i >= 0 ==> sources_in(ins, i, inputs_outcome(g, defs, ps, depth, done, n, ins, i)->Ok_0),
    decreases depth, ins.len() - i,
{
    let d = inputs_outcome(g, defs, ps, depth, done, n, ins, i)->Ok_0;
    lemma_inputs_extend(g, defs, ps, depth, done, n, ins, i);
    if i < 0 || i >= ins.len() {
        assert(d == done);
    } else {
        match ins[i].kind {
            DependencyKind::Connection { node: c, param_name: _ } => if done.contains(c) {
                lemma_inputs_deps_first(g, defs, ps, depth, done, n, ins, i + 1);
                assert forall|q: int| #![trigger ins[q]] i <= q < ins.len() implies (ins[q].kind matches DependencyKind::Connection { node: c2, param_name: _ } ==> d.contains(c2)) by {
                    if q == i {
                        let p = choose|p: int| 0 <= p < done.len() && done[p] == c;
                        assert(d[p] == d.subrange(0, done.len() as int)[p]);
                        assert(d[p] == c);
                    }
                }
            } else {
                lemma_run_deps_first(g, defs, ps, depth, done, c);
                lemma_run_extends(g, defs, ps, depth, done, c);
                let d1 = run_outcome(g, defs, ps, depth, done, c)->Ok_0;
                lemma_inputs_deps_first(g, defs, ps, depth, d1, n, ins, i + 1);
                lemma_inputs_extend(g, defs, ps, depth, d1, n, ins, i + 1);
                lemma_deps_extend(g, d1, d, done.len() as int, d1.len() as int);
                assert forall|j: int, q: int|
                    #![trigger g.node(d[j]).inputs@[q]]
                    done.len() <= j < d.len() && 0 <= q < g.node(d[j]).inputs@.len() implies (g.node(d[j]).inputs@[q].kind matches DependencyKind::Connection { node: c2, param_name: _ }
                        ==> exists|p: int| 0 <= p < j && #[trigger] d[p] == c2) by {
                }
                assert forall|q: int| #![trigger ins[q]] i <= q < ins.len() implies (ins[q].kind matches DependencyKind::Connection { node: c2, param_name: _ } ==> d.contains(c2)) by {
                    if q == i {
                        let p = (d1.len() - 1) as int;
                        assert(d1[p] == c);
                        assert(d[p] == d.subrange(0, d1.len() as int)[p]);
                        assert(d[p] == c);
                    }
                }
            },
            DependencyKind::External { promoted: _ } => {
                lemma_inputs_deps_first(g, defs, ps, depth, done, n, ins, i + 1);
            },
        }
    }
}

/// No node occurs twice in `s`.
pub open spec fn no_dups(s: Seq<BjkNodeId>) -> bool {
    forall|i: int, j: int| 0 <= i < j < s.len() ==> s[i] != s[j]
}

/// The node feeding input `i` of node `x`, for a connected input.
pub open spec fn source_of(g: BjkGraph, x: BjkNodeId, i: int) -> Option<BjkNodeId> {
    match g.node(x).inputs@[i].kind {
        DependencyKind::Connection { node: s, param_name: _ } => Some(s),
        DependencyKind::External { promoted: _ } => None,
    }
}

/// The inputs of `x` before the `i`-th are available once the nodes
/// `done` have run.
pub open spec fn inputs_ready(g: BjkGraph, ps: Seq<ExternalParameter>, x: BjkNodeId, i: int, done: Seq<BjkNodeId>) -> bool {
    forall|q: int|
        #![trigger g.node(x).inputs@[q]]
        0 <= q < i ==> match g.node(x).inputs@[q].kind {
            DependencyKind::Connection { node: s, param_name: _ } => done.contains(s),
            DependencyKind::External { promoted: _ } => has_param(ps, x, g.node(x).inputs@[q].name@),
        }
}

/// The runs in progress, outermost first: node `xs[t]` waits on its input
/// `is[t]`, fed by `xs[t + 1]`, the last one by `last`; none has run, and
/// the inputs before the awaited one are available.
pub open spec fn frames_ok(
    g: BjkGraph,
    defs: Seq<String>,
    ps: Seq<ExternalParameter>,
    xs: Seq<BjkNodeId>,
    is: Seq<int>,
    done: Seq<BjkNodeId>,
    last: BjkNodeId,
) -> bool {
    &&& xs.len() == is.len()
    &&& forall|t: int|
        #![trigger xs[t]]
        0 <= t < xs.len() ==> {
            &&& g.has_node(xs[t])
            &&& knows_op(defs, g.node(xs[t]).op_name@)
            &&& 0 <= is[t] < g.node(xs[t]).inputs@.len()
            &&& source_of(g, xs[t], is[t]) == Some(if t + 1 < xs.len() { xs[t + 1] } else { last })
            &&& !done.contains(xs[t])
            &&& inputs_ready(g, ps, xs[t], is[t], done)
        }
}

/// Available inputs can be passed over.
proof fn lemma_skip_ready(
    g: BjkGraph,
    defs: Seq<String>,
    ps: Seq<ExternalParameter>,
    depth: nat,
    done: Seq<BjkNodeId>,
    x: BjkNodeId,
    q: int,
    i: int,
)
    requires
        0 <= q <= i <= g.node(x).inputs@.len(),
        inputs_ready(g, ps, x, i, done),
    ensures
        inputs_outcome(g, defs, ps, depth, done, x, g.node(x).inputs@, q) == inputs_outcome(g, defs, ps, depth, done, x, g.node(x).inputs@, i),
    decreases i - q,
{
    if q < i {
        let ins = g.node(x).inputs@;
        assert(ins[q] == g.node(x).inputs@[q]);
        lemma_skip_ready(g, defs, ps, depth, done, x, q + 1, i);
    }
}

/// Runs that wait on each other in a cycle never finish: each fails.
proof fn lemma_cycle_fails(
    g: BjkGraph,
    defs: Seq<String>,
    ps: Seq<ExternalParameter>,
    depth: nat,
    done: Seq<BjkNodeId>,
    xs: Seq<BjkNodeId>,
    is: Seq<int>,
    t: int,
)
    requires
        xs.len() >= 1,
        frames_ok(g, defs, ps, xs, is, done, xs[0]),
        0 <= t < xs.len(),
    ensures
        run_outcome(g, defs, ps, depth, done, xs[t]) is Err,
    decreases depth,
{
    let x = xs[t];
    assert(g.has_node(x));
    if depth > 0 {
        let ins = g.node(x).inputs@;
        let d1 = (depth - 1) as nat;
        lemma_skip_ready(g, defs, ps, d1, done, x, 0, is[t]);
        let nt = if t + 1 < xs.len() { t + 1 } else { 0 };
        assert(source_of(g, x, is[t]) == Some(xs[nt]));
        assert(!done.contains(xs[nt]));
        lemma_cycle_fails(g, defs, ps, d1, done, xs, is, nt);
        assert(ins[is[t]] == g.node(x).inputs@[is[t]]);
    }
}

/// Inputs available after `done` stay available after more nodes ran.
proof fn lemma_ready_grows(g: BjkGraph, ps: Seq<ExternalParameter>, x: BjkNodeId, i: int, done: Seq<BjkNodeId>, d: Seq<BjkNodeId>)
    requires
        inputs_ready(g, ps, x, i, done),
        done.len() <= d.len(),
        d.subrange(0, done.len() as int) == done,
    ensures
        inputs_ready(g, ps, x, i, d),
{
    assert forall|q: int|
        #![trigger g.node(x).inputs@[q]]
        0 <= q < i implies match g.node(x).inputs@[q].kind {
            DependencyKind::Connection { node: s, param_name: _ } => d.contains(s),
            DependencyKind::External { promoted: _ } => has_param(ps, x, g.node(x).inputs@[q].name@),
        } by {
        if let DependencyKind::Connection { node: s, param_name: _ } = g.node(x).inputs@[q].kind {
            let p = choose|p: int| 0 <= p < done.len() && done[p] == s;
            assert(d[p] == d.subrange(0, done.len() as int)[p]);
        }
    }
}

/// A run of `c`, fed to the innermost of the runs in progress `xs`, adds no
/// node twice and none of the runs in progress.
proof fn lemma_run_once(
    g: BjkGraph,
    defs: Seq<String>,
    ps: Seq<ExternalParameter>,
    depth: nat,
    done: Seq<BjkNodeId>,
    xs: Seq<BjkNodeId>,
    is: Seq<int>,
    c: BjkNodeId,
)
    requires
        frames_ok(g, defs, ps, xs, is, done, c),
        no_dups(done),
        !done.contains(c),
        run_outcome(g, defs, ps, depth, done, c) is Ok,
    ensures
        no_dups(run_outcome(g, defs, ps, depth, done, c)->Ok_0),
        forall|t: int| 0 <= t < xs.len() ==> !run_outcome(g, defs, ps, depth, done, c)->Ok_0.contains(#[trigger] xs[t]),
    decreases depth, 0nat,
{
    if exists|t: int| 0 <= t < xs.len() && xs[t] == c {
        let t = choose|t: int| 0 <= t < xs.len() && xs[t] == c;
        let xs2 = xs.subrange(t, xs.len() as int);
        let is2 = is.subrange(t, is.len() as int);
        assert forall|u: int| #![trigger xs2[u]] 0 <= u < xs2.len() implies {
            &&& g.has_node(xs2[u])
            &&& knows_op(defs, g.node(xs2[u]).op_name@)
            &&& 0 <= is2[u] < g.node(xs2[u]).inputs@.len()
            &&& source_of(g, xs2[u], is2[u]) == Some(if u + 1 < xs2.len() { xs2[u + 1] } else { xs2[0] })
            &&& !done.contains(xs2[u])
            &&& inputs_ready(g, ps, xs2[u], is2[u], done)
        } by {
            assert(xs2[u] == xs[t + u]);
            assert(is2[u] == is[t + u]);
            if u + 1 < xs2.len() {
                assert(xs2[u + 1] == xs[t + u + 1]);
            }
        }
        assert(frames_ok(g, defs, ps, xs2, is2, done, xs2[0]));
        lemma_cycle_fails(g, defs, ps, depth, done, xs2, is2, 0);
        assert(false);
    } else {
        let ins = g.node(c).inputs@;
        let d1 = (depth - 1) as nat;
        lemma_inputs_once(g, defs, ps, d1, done, xs, is, c, 0);
        let d0 = inputs_outcome(g, defs, ps, d1, done, c, ins, 0)->Ok_0;
        let d = d0.push(c);
        assert forall|i: int, j: int| 0 <= i < j < d.len() implies d[i] != d[j] by {
            if j == d0.len() {
                assert(d0.contains(d0[i]));
            } else {
                assert(d0[i] != d0[j]);
            }
        }
        assert forall|t: int| 0 <= t < xs.len() implies !d.contains(#[trigger] xs[t]) by {
            if d.contains(xs[t]) {
                let p = choose|p: int| 0 <= p < d.len() && d[p] == xs[t];
                if p < d0.len() {
                    assert(d0[p] == xs[t]);
                    assert(d0.contains(xs[t]));
                }
            }
        }
    }
}

/// Computing the inputs of `c` from the `q`-th on, while the runs `xs` are
/// in progress, adds no node twice, neither `c` nor a run in progress.
proof fn lemma_inputs_once(
    g: BjkGraph,
    defs: Seq<String>,
    ps: Seq<ExternalParameter>,
    depth: nat,
    done: Seq<BjkNodeId>,
    xs: Seq<BjkNodeId>,
    is: Seq<int>,
    c: BjkNodeId,
    q: int,
)
    requires
        g.has_node(c),
        knows_op(defs, g.node(c).op_name@),
        frames_ok(g, defs, ps, xs, is, done, c),
        forall|t: int| 0 <= t < xs.len() ==> xs[t] != c,
        no_dups(done),
        !done.contains(c),
        0 <= q,
        inputs_ready(g, ps, c, q, done),
        inputs_outcome(g, defs, ps, depth, done, c, g.node(c).inputs@, q) is Ok,
    ensures
        no_dups(inputs_outcome(g, defs, ps, depth, done, c, g.node(c).inputs@, q)->Ok_0),
        !inputs_outcome(g, defs, ps, depth, done, c, g.node(c).inputs@, q)->Ok_0.contains(c),
        forall|t: int| 0 <= t < xs.len() ==> !inputs_outcome(g, defs, ps, depth, done, c, g.node(c).inputs@, q)->Ok_0.contains(#[trigger] xs[t]),
    decreases depth, g.node(c).inputs@.len() - q,
{
    let ins = g.node(c).inputs@;
    if q < ins.len() {
        assert(ins[q] == g.node(c).inputs@[q]);
        match ins[q].kind {
            DependencyKind::Connection { node: s, param_name: _ } => if done.contains(s) {
                assert(inputs_ready(g, ps, c, q + 1, done));
                lemma_inputs_once(g, defs, ps, depth, done, xs, is, c, q + 1);
            } else {
                let xs2 = xs.push(c);
                let is2 = is.push(q);
                assert forall|u: int| #![trigger xs2[u]] 0 <= u < xs2.len() implies {
                    &&& g.has_node(xs2[u])
                    &&& knows_op(defs, g.node(xs2[u]).op_name@)
                    &&& 0 <= is2[u] < g.node(xs2[u]).inputs@.len()
                    &&& source_of(g, xs2[u], is2[u]) == Some(if u + 1 < xs2.len() { xs2[u + 1] } else { s })
                    &&& !done.contains(xs2[u])
                    &&& inputs_ready(g, ps, xs2[u], is2[u], done)
                } by {
                    if u < xs.len() {
                        assert(xs2[u] == xs[u] && is2[u] == is[u]);
                        if u + 1 < xs.len() {
                            assert(xs2[u + 1] == xs[u + 1]);
                        }
                    }
                }
                assert(frames_ok(g, defs, ps, xs2, is2, done, s));
                lemma_run_once(g, defs, ps, depth, done, xs2, is2, s);
                lemma_run_extends(g, defs, ps, depth, done, s);
                let d1 = run_outcome(g, defs, ps, depth, done, s)->Ok_0;
                assert forall|t: int| 0 <= t < xs.len() implies !d1.contains(#[trigger] xs[t]) by {
                    assert(xs2[t] == xs[t]);
                }
                assert(!d1.contains(c)) by {
                    assert(xs2[xs.len() as int] == c);
                }
                assert forall|t: int| #![trigger xs[t]] 0 <= t < xs.len() implies {
                    &&& g.has_node(xs[t])
                    &&& knows_op(defs, g.node(xs[t]).op_name@)
                    &&& 0 <= is[t] < g.node(xs[t]).inputs@.len()
                    &&& source_of(g, xs[t], is[t]) == Some(if t + 1 < xs.len() { xs[t + 1] } else { c })
                    &&& !d1.contains(xs[t])
                    &&& inputs_ready(g, ps, xs[t], is[t], d1)
                } by {
                    lemma_ready_grows(g, ps, xs[t], is[t], done, d1);
                }
                assert(frames_ok(g, defs, ps, xs, is, d1, c));
                lemma_ready_grows(g, ps, c, q, done, d1);
                assert(inputs_ready(g, ps, c, q + 1, d1)) by {
                    assert(d1[d1.len() - 1] == s);
                    assert(d1.contains(s));
                }
                lemma_inputs_once(g, defs, ps, depth, d1, xs, is, c, q + 1);
            },
            DependencyKind::External { promoted: _ } => {
                assert(inputs_ready(g, ps, c, q + 1, done));
                lemma_inputs_once(g, defs, ps, depth, done, xs, is, c, q + 1);
            },
        }
    }
}

/// A run of a node that has not run yet runs each node at most once: when
/// no node occurs twice among those that ran, none does afterwards.
pub proof fn lemma_run_once_each(
    g: BjkGraph,
    defs: Seq<String>,
    ps: Seq<ExternalParameter>,
    depth: nat,
    done: Seq<BjkNodeId>,
    n: BjkNodeId,
)
    requires
        no_dups(done),
        !done.contains(n),
        run_outcome(g, defs, ps, depth, done, n) is Ok,
    ensures
        no_dups(run_outcome(g, defs, ps, depth, done, n)->Ok_0),
{
    lemma_run_once(g, defs, ps, depth, done, Seq::empty(), Seq::empty(), n);
}

/// `r` is the outcome `o`, on the cache `cache` after the run.
pub open spec fn run_result_is(
    r: Result<(), InterpreterError>,
    cache: Seq<BjkNodeId>,
    o: Result<Seq<BjkNodeId>, InterpreterError>,
) -> bool {
    match o {
        Ok(d) => r is Ok && cache == d,
        Err(e) => r matches Err(x) && same_error(x, e),
    }
}

/// Whether `id` is among `ids`.
fn contains_id(ids: &Vec<BjkNodeId>, id: BjkNodeId) -> (r: bool)
    ensures
        r == ids@.contains(id),
{
    let mut i: usize = 0;
    while i < ids.len()
        invariant
            i <= ids@.len(),
            forall|j: int| 0 <= j < i ==> ids@[j] != id,
        decreases ids@.len() - i,
    {
        if ids[i].0 == id.0 {
            assert(ids@[i as int] == id);
            return true;
        }
        i += 1;
    }
    false
}

/// Whether a value is given for the parameter `name` of node `n`.
fn find_param(ps: &Vec<ExternalParameter>, n: BjkNodeId, name: &String) -> (r: bool)
    ensures
        r == has_param(ps@, n, name@),
{
    let mut i: usize = 0;
    while i < ps.len()
        invariant
            i <= ps@.len(),
            forall|j: int| 0 <= j < i ==> !((#[trigger] ps@[j]).node_id == n && ps@[j].param_name@ == name@),
        decreases ps@.len() - i,
    {
        if ps[i].node_id.0 == n.0 && ps[i].param_name == *name {
            return true;
        }
        i += 1;
    }
    false
}

/// Whether a node definition named `op` is known.
fn find_op(defs: &Vec<String>, op: &String) -> (r: bool)
    ensures
        r == knows_op(defs@, op@),
{
    let mut i: usize = 0;
    while i < defs.len()
        invariant
            i <= defs@.len(),
            forall|j: int| 0 <= j < i ==> (#[trigger] defs@[j])@ != op@,
        decreases defs@.len() - i,
    {
        if defs[i] == *op {
            return true;
        }
        i += 1;
    }
    false
}

/// Runs node `node_id` with nesting bound `depth`.
fn run_node_within(graph: &BjkGraph, ctx: &mut InterpreterContext, node_id: BjkNodeId, depth: usize) -> (r: Result<(), InterpreterError>)
    ensures
        final(ctx).external_params == old(ctx).external_params,
        final(ctx).node_definitions == old(ctx).node_definitions,
        run_result_is(
            r,
            final(ctx).outputs_cache@,
            run_outcome(*graph, old(ctx).node_definitions@, old(ctx).external_params@, depth as nat, old(ctx).outputs_cache@, node_id),
        ),
    decreases depth,
{
    let ghost g = *graph;
    let ghost defs = ctx.node_definitions@;
    let ghost ps = ctx.external_params@;
    let node: &BjkNode = match crate::graph::node_slots_get(&graph.nodes, node_id.0) {
        Some(n) => n,
        None => {
            return Err(InterpreterError::NodeNotFound(node_id));
        },
    };
    if depth == 0 {
        return Err(InterpreterError::DependencyCycle(node_id));
    }
    if !find_op(&ctx.node_definitions, &node.op_name) {
        return Err(InterpreterError::NodeDefinitionNotFound(node.op_name.clone()));
    }
    let ghost ins = node.inputs@;
    let ghost d1 = (depth - 1) as nat;
    let ghost total = inputs_outcome(g, defs, ps, d1, ctx.outputs_cache@, node_id, ins, 0);
    let ghost whole = run_outcome(g, defs, ps, depth as nat, ctx.outputs_cache@, node_id);
    assert(whole == match total {
        Ok(d) => Ok(d.push(node_id)),
        Err(e) => Err(e),
    });
    let mut i: usize = 0;
    while i < node.inputs.len()
        invariant
            *node == g.node(node_id),
            ins == node.inputs@,
            g == *graph,
            defs == ctx.node_definitions@,
            ps == ctx.external_params@,
            ctx.external_params == old(ctx).external_params,
            ctx.node_definitions == old(ctx).node_definitions,
            depth >= 1,
            d1 == depth - 1,
            i <= ins.len(),
            total == inputs_outcome(g, defs, ps, d1, ctx.outputs_cache@, node_id, ins, i as int),
            whole == run_outcome(g, defs, ps, depth as nat, old(ctx).outputs_cache@, node_id),
            whole == match total {
                Ok(d) => Ok(d.push(node_id)),
                Err(e) => Err::<Seq<BjkNodeId>, InterpreterError>(e),
            },
        decreases ins.len() - i,
    {
        let input = &node.inputs[i];
        match &input.kind {
            DependencyKind::Connection { node: src, param_name: _ } => {
                let src = *src;
                if !contains_id(&ctx.outputs_cache, src) {
                    let sub = run_node_within(graph, ctx, src, depth - 1);
                    match sub {
                        Ok(()) => {},
                        Err(e) => {
                            return Err(e);
                        },
                    }
                }
            },
            DependencyKind::External { promoted: _ } => {
                if !find_param(&ctx.external_params, node_id, &input.name) {
                    return Err(InterpreterError::MissingExternalParameter(node_id, input.name.clone()));
                }
            },
        }
        i += 1;
    }
    ctx.outputs_cache.push(node_id);
    Ok(())
}

/// Runs node `node_id` and, before it, what it needs that has not run:
/// `ctx.outputs_cache` gains the nodes that ran, in order. Runs nest at
/// most as deep as the graph has nodes, which a graph without dependency
/// cycles never needs.
pub fn run_node(graph: &BjkGraph, ctx: &mut InterpreterContext, node_id: BjkNodeId) -> (r: Result<(), InterpreterError>)
    ensures
        final(ctx).external_params == old(ctx).external_params,
        final(ctx).node_definitions == old(ctx).node_definitions,
        run_result_is(
            r,
            final(ctx).outputs_cache@,
            run_outcome(
                *graph,
                old(ctx).node_definitions@,
                old(ctx).external_params@,
                graph.nodes_map().dom().len(),
                old(ctx).outputs_cache@,
                node_id,
            ),
        ),
{
    let n = node_slots_len(&graph.nodes);
    run_node_within(graph, ctx, node_id, n)
}

/// The order in which the nodes run to compute `target`, from a fresh
/// start, given the external parameters that have values and the known
/// node definitions.
pub fn run_graph(
    graph: &BjkGraph,
    target: BjkNodeId,
    external_params: Vec<ExternalParameter>,
    node_definitions: Vec<String>,
) -> (r: Result<Vec<BjkNodeId>, InterpreterError>)
    ensures
        match run_outcome(
            *graph,
            node_definitions@,
            external_params@,
            graph.nodes_map().dom().len(),
            Seq::empty(),
            target,
        ) {
            Ok(d) => r matches Ok(v) && v@ == d,
            Err(e) => r matches Err(x) && same_error(x, e),
        },
{
    let mut ctx = InterpreterContext { outputs_cache: Vec::new(), external_params, node_definitions };
    match run_node(graph, &mut ctx, target) {
        Ok(()) => Ok(ctx.outputs_cache),
        Err(e) => Err(e),
    }
}

} // verus!
