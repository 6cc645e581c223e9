//! Sorting a bag of edges into a chain of vertices.
use vstd::prelude::*;

use crate::edit_ops::{src_dst, EditError};
use crate::halfedge::{HalfEdgeId, MeshConnectivity, MeshView, VertexId};
use crate::traversals::TraversalError;

verus! {

/// The order of slot map keys: by slot, then by version.
pub open spec fn key_lt(x: u64, y: u64) -> bool {
    x % 0x1_0000_0000 < y % 0x1_0000_0000 || (x % 0x1_0000_0000 == y % 0x1_0000_0000 && x / 0x1_0000_0000 < y
        / 0x1_0000_0000)
}

/// The order of edges: by their first half-edge, then by their second.
pub open spec fn edge_lt(e: (u64, u64), f: (u64, u64)) -> bool {
    key_lt(e.0, f.0) || (e.0 == f.0 && key_lt(e.1, f.1))
}

/// The edge of the half-edges `h` and `t`: the smaller key first.
pub open spec fn edge_of(h: u64, t: u64) -> (u64, u64) {
    if key_lt(t, h) {
        (t, h)
    } else {
        (h, t)
    }
}

/// For each vertex met, by key, the edges it is on, in the order they were
/// met.
pub type Adj = Seq<(u64, Seq<(u64, u64)>)>;

/// The position of vertex `v` in `adj`, or `adj.len()` when absent.
pub open spec fn adj_find(adj: Adj, v: u64) -> int
    decreases adj.len(),
{
    if adj.len() == 0 {
        0
    } else {
        let i = adj_find(adj.drop_last(), v);
        if i < adj.len() - 1 {
            i
        } else if adj.last().0 == v {
            adj.len() - 1
        } else {
            adj.len() as int
        }
    }
}

/// `adj` with edge `e` added to vertex `v`'s edges, where it is not yet.
pub open spec fn adj_add(adj: Adj, v: u64, e: (u64, u64)) -> Adj {
    let i = adj_find(adj, v);
    if i < adj.len() {
        if adj[i].1.contains(e) {
            adj
        } else {
            adj.update(i, (v, adj[i].1.push(e)))
        }
    } else {
        adj.push((v, seq![e]))
    }
}

/// The edges of the first `i` half-edges of `bag`, by vertex, or the first
/// lookup that fails.
pub open spec fn bag_adj(m: MeshView, bag: Seq<HalfEdgeId>, i: int) -> Result<Adj, TraversalError>
    decreases i,
{
    if i <= 0 {
        Ok(Seq::empty())
    } else {
        match bag_adj(m, bag, i - 1) {
            Err(e) => Err(e),
            Ok(adj) => {
                let h = bag[i - 1];
                match src_dst(m, h) {
                    Err(e) => Err(e),
                    Ok((s, d)) => match m.halfedges[h.0].twin {
                        None => Err(TraversalError::HalfEdgeHasNoTwin(h)),
                        Some(t) => {
                            let e = edge_of(h.0, t.0);
                            Ok(adj_add(adj_add(adj, s.0, e), d.0, e))
                        },
                    },
                }
            },
        }
    }
}

/// The position of the smallest vertex of `adj`, among those with one edge
/// when `ends` holds, or `adj.len()` when there is none.
pub open spec fn min_vertex(adj: Adj, ends: bool) -> int
    decreases adj.len(),
{
    if adj.len() == 0 {
        0
    } else {
        let i = min_vertex(adj.drop_last(), ends);
        let j = adj.len() - 1;
        if ends && adj[j].1.len() != 1 {
            if i < j {
                i
            } else {
                adj.len() as int
            }
        } else if i < j && !key_lt(adj[j].0, adj[i].0) {
            i
        } else {
            j
        }
    }
}

/// The position of the smallest edge of the non-empty `es`.
pub open spec fn min_edge(es: Seq<(u64, u64)>) -> int
    decreases es.len(),
{
    if es.len() <= 1 {
        0
    } else {
        let i = min_edge(es.drop_last());
        if edge_lt(es.last(), es[i]) {
            es.len() - 1
        } else {
            i
        }
    }
}

/// The other end of edge `e` from `v`, by the ends of its first half-edge.
pub open spec fn other_end(m: MeshView, e: (u64, u64), v: u64) -> u64 {
    let (s, d) = src_dst(m, HalfEdgeId(e.0))->Ok_0;
    if v == s.0 {
        d.0
    } else {
        s.0
    }
}

/// `es` without `e`.
pub open spec fn without(es: Seq<(u64, u64)>, e: (u64, u64)) -> Seq<(u64, u64)> {
    es.filter(differs(e))
}

/// Whether an edge differs from `e`.
pub open spec fn differs(e: (u64, u64)) -> spec_fn((u64, u64)) -> bool {
    |x: (u64, u64)| x != e
}

/// Whether a half-edge is on neither side of edge `e`.
pub open spec fn keeps(e: (u64, u64)) -> spec_fn(HalfEdgeId) -> bool {
    |h: HalfEdgeId| h.0 != e.0 && h.0 != e.1
}

/// Walking the chain from `v`, having passed `sorted`: each vertex must
/// have one edge left, which leads on and is used up at both ends, until a
/// vertex has none left or every vertex was passed. The flag says whether
/// every vertex and edge the walk looks up was there.
pub open spec fn chain_walk(m: MeshView, adj: Adj, v: u64, sorted: Seq<u64>) -> (Result<Seq<u64>, EditError>, bool)
    decreases adj.len() - sorted.len(),
{
    if sorted.len() >= adj.len() {
        (Ok(sorted), true)
    } else if sorted.contains(v) {
        (Err(EditError::NotAChain), true)
    } else {
        let i = adj_find(adj, v);
        if i < 0 || i >= adj.len() {
            (Err(EditError::NotAChain), false)
        } else {
            let es = adj[i].1;
            if es.len() == 1 {
                let e = es[0];
                let ok_e = m.halfedges.dom().contains(e.0) && src_dst(m, HalfEdgeId(e.0)) is Ok;
                let w = other_end(m, e, v);
                let adj1 = adj.update(i, (v, Seq::empty()));
                let j = adj_find(adj1, w);
                if j < 0 || j >= adj1.len() {
                    (Err(EditError::NotAChain), false)
                } else {
                    let adj2 = adj1.update(j, (w, without(adj1[j].1, e)));
                    let (r, ok) = chain_walk(m, adj2, w, sorted.push(v));
                    (r, ok && ok_e)
                }
            } else if es.len() == 0 {
                (Ok(sorted.push(v)), true)
            } else {
                (Err(EditError::NotAChain), true)
            }
        }
    }
}

/// The vertex keys as vertex ids.
pub open spec fn as_vertex_ids(s: Seq<u64>) -> Seq<VertexId> {
    s.map_values(|k: u64| VertexId(k))
}

/// Each half-edge looked at before the first failing lookup differs from
/// its twin.
pub open spec fn bag_safe(m: MeshView, bag: Seq<HalfEdgeId>, i: int) -> bool
    decreases i,
{
    if i <= 0 {
        true
    } else {
        &&& bag_safe(m, bag, i - 1)
        &&& bag_adj(m, bag, i - 1) is Ok ==> m.halfedges.dom().contains(bag[i - 1].0)
        &&& (bag_adj(m, bag, i - 1) is Ok && src_dst(m, bag[i - 1]) is Ok) ==> (m.halfedges[bag[i - 1].0].twin matches Some(t)
            ==> t != bag[i - 1])
    }
}

proof fn lemma_adj_add(adj: Adj, v: u64, e: (u64, u64))
    ensures
        adj.len() <= adj_add(adj, v, e).len() <= adj.len() + 1,
        forall|p: int, q: int| 0 <= p < adj_add(adj, v, e).len() && 0 <= q < adj_add(adj, v, e)[p].1.len() ==> {
            ||| (p < adj.len() && q < adj[p].1.len() && #[trigger] adj_add(adj, v, e)[p].1[q] == adj[p].1[q])
            ||| adj_add(adj, v, e)[p].1[q] == e
        },
        forall|p: int| 0 <= p < adj.len() && adj[p].1.len() > 0 ==> #[trigger] adj_add(adj, v, e)[p].1.len() > 0,
        adj_add(adj, v, e).len() > adj.len() ==> adj_add(adj, v, e)[adj.len() as int].1.len() > 0,
{
    lemma_adj_find(adj, v);
    let i = adj_find(adj, v);
    let r = adj_add(adj, v, e);
    assert forall|p: int, q: int| 0 <= p < r.len() && 0 <= q < r[p].1.len() implies {
        ||| (p < adj.len() && q < adj[p].1.len() && #[trigger] r[p].1[q] == adj[p].1[q])
        ||| r[p].1[q] == e
    } by {
        if i < adj.len() && !adj[i].1.contains(e) && p == i {
            if q < adj[i].1.len() {
                assert(r[p].1[q] == adj[p].1[q]);
            } else {
                assert(r[p].1[q] == e);
            }
        } else if i >= adj.len() && p == adj.len() {
            assert(r[p].1 == seq![e]);
        }
    }
}

/// Edge `e` is the edge of one of the first `i` half-edges of `bag`.
pub open spec fn from_bag(m: MeshView, bag: Seq<HalfEdgeId>, i: int, e: (u64, u64)) -> bool {
    exists|k: int| 0 <= k < i && (#[trigger] m.halfedges[bag[k].0].twin matches Some(t) && e == edge_of(bag[k].0, t.0))
}

/// Each edge that `bag_adj` lists is the edge of one of the half-edges of
/// the bag, and each vertex it lists has an edge.
proof fn lemma_bag_adj(m: MeshView, bag: Seq<HalfEdgeId>, i: int)
    requires
        0 <= i <= bag.len(),
        bag_adj(m, bag, i) is Ok,
    ensures
        i > 0 ==> bag_adj(m, bag, i)->Ok_0.len() > 0,
        forall|p: int| 0 <= p < bag_adj(m, bag, i)->Ok_0.len() ==> (#[trigger] bag_adj(m, bag, i)->Ok_0[p]).1.len() > 0,
        forall|p: int, q: int|
            0 <= p < bag_adj(m, bag, i)->Ok_0.len() && 0 <= q < bag_adj(m, bag, i)->Ok_0[p].1.len() ==> from_bag(
                m,
                bag,
                i,
                #[trigger] bag_adj(m, bag, i)->Ok_0[p].1[q],
            ),
    decreases i,
{
    if i > 0 {
        lemma_bag_adj(m, bag, i - 1);
        let adj = bag_adj(m, bag, i - 1)->Ok_0;
        let h = bag[i - 1];
        let (s, d) = src_dst(m, h)->Ok_0;
        let t = m.halfedges[h.0].twin->Some_0;
        let e = edge_of(h.0, t.0);
        let a1 = adj_add(adj, s.0, e);
        lemma_adj_add(adj, s.0, e);
        lemma_adj_add(a1, d.0, e);
        let a2 = adj_add(a1, d.0, e);
        assert forall|p: int, q: int| 0 <= p < a2.len() && 0 <= q < a2[p].1.len() implies from_bag(m, bag, i, #[trigger] a2[p].1[q]) by {
            if a2[p].1[q] == e {
                assert(m.halfedges[bag[i - 1].0].twin == Some(t) && bag[i - 1] == bag[i - 1]);
            } else {
                assert(p < a1.len() && q < a1[p].1.len() && a2[p].1[q] == a1[p].1[q]);
                if a1[p].1[q] == e {
                    assert(m.halfedges[bag[i - 1].0].twin == Some(t) && bag[i - 1] == bag[i - 1]);
                } else {
                    assert(p < adj.len() && q < adj[p].1.len() && a1[p].1[q] == adj[p].1[q]);
                    assert(from_bag(m, bag, i - 1, adj[p].1[q]));
                    let k = choose|k: int| 0 <= k < i - 1 && (#[trigger] m.halfedges[bag[k].0].twin matches Some(tt) && adj[p].1[q] == edge_of(bag[k].0, tt.0));
                    assert(m.halfedges[bag[k].0].twin == m.halfedges[bag[k].0].twin);
                }
            }
        }
        assert forall|p: int| 0 <= p < a2.len() implies (#[trigger] a2[p]).1.len() > 0 by {
            if p < adj.len() {
                assert(a1[p].1.len() > 0);
            } else if p < a1.len() {
                assert(a1[p].1.len() > 0);
            }
        }
    }
}

proof fn lemma_filter_smaller(s: Seq<HalfEdgeId>, pred: spec_fn(HalfEdgeId) -> bool, k: int)
    requires
        0 <= k < s.len(),
        !pred(s[k]),
    ensures
        s.filter(pred).len() < s.len(),
    decreases s.len(),
{
    let d = s.drop_last();
    assert(s == d.push(s.last()));
    d.lemma_filter_len_push(pred, s.last());
    d.filter_lemma(pred);
    if k < s.len() - 1 {
        assert(d[k] == s[k]);
        lemma_filter_smaller(d, pred, k);
    }
}

/// What `sort_bag_of_edges` gives for `bag`: the vertices of the chain its
/// edges make, from the smallest vertex on a single edge, and whether the
/// edges closed a loop, which is broken at the smallest edge of the
/// smallest vertex. The flag says whether every element looked up was
/// there.
pub open spec fn sort_outcome(m: MeshView, bag: Seq<HalfEdgeId>) -> (Result<(Seq<VertexId>, bool), EditError>, bool)
    decreases bag.len(),
{
    if bag.len() == 0 {
        (Err(EditError::EmptyBag), true)
    } else {
        let safe0 = bag_safe(m, bag, bag.len() as int);
        match bag_adj(m, bag, bag.len() as int) {
            Err(e) => (Err(EditError::Traversal(e)), safe0),
            Ok(adj) => {
                let ep = min_vertex(adj, true);
                if ep >= adj.len() {
                    let v0 = min_vertex(adj, false);
                    if 0 <= v0 < adj.len() && adj[v0].1.len() > 0 {
                        let es = adj[v0].1;
                        let e = es[min_edge(es)];
                        let nb = bag.filter(keeps(e));
                        if nb.len() < bag.len() {
                            let (r, s) = sort_outcome(m, nb);
                            (
                                match r {
                                    Ok((vs, _)) => Ok((vs, true)),
                                    Err(x) => Err(x),
                                },
                                s && safe0,
                            )
                        } else {
                            (Err(EditError::EmptyBag), false)
                        }
                    } else {
                        (Err(EditError::EmptyBag), false)
                    }
                } else {
                    let (r, s) = chain_walk(m, adj, adj[ep].0, Seq::empty());
                    (
                        match r {
                            Ok(vs) => Ok((as_vertex_ids(vs), false)),
                            Err(x) => Err(x),
                        },
                        s && safe0,
                    )
                }
            },
        }
    }
}

/// The contents of an adjacency built in vectors.
pub open spec fn adj_view(a: Seq<(u64, Vec<(u64, u64)>)>) -> Adj {
    a.map_values(|p: (u64, Vec<(u64, u64)>)| (p.0, p.1@))
}

proof fn lemma_adj_find(a: Adj, v: u64)
    ensures
        0 <= adj_find(a, v) <= a.len(),
        forall|j: int| 0 <= j < adj_find(a, v) ==> (#[trigger] a[j]).0 != v,
        adj_find(a, v) < a.len() ==> a[adj_find(a, v)].0 == v,
    decreases a.len(),
{
    if a.len() > 0 {
        lemma_adj_find(a.drop_last(), v);
        assert forall|j: int| 0 <= j < adj_find(a, v) implies (#[trigger] a[j]).0 != v by {
            if j < a.len() - 1 {
                assert(a[j] == a.drop_last()[j]);
            }
        }
    }
}

fn key_lt_exec(x: u64, y: u64) -> (r: bool)
    ensures
        r == key_lt(x, y),
{
    let sx = x % 0x1_0000_0000;
    let sy = y % 0x1_0000_0000;
    sx < sy || (sx == sy && x / 0x1_0000_0000 < y / 0x1_0000_0000)
}

fn edge_lt_exec(e: (u64, u64), f: (u64, u64)) -> (r: bool)
    ensures
        r == edge_lt(e, f),
{
    key_lt_exec(e.0, f.0) || (e.0 == f.0 && key_lt_exec(e.1, f.1))
}

/// The position of vertex `v` in `adj`, or its length.
fn find_vertex(adj: &Vec<(u64, Vec<(u64, u64)>)>, v: u64) -> (r: usize)
    ensures
        r == adj_find(adj_view(adj@), v),
{
    proof {
        lemma_adj_find(adj_view(adj@), v);
    }
    let mut i: usize = 0;
    while i < adj.len()
        invariant
            i <= adj@.len(),
            forall|j: int| 0 <= j < i ==> (#[trigger] adj@[j]).0 != v,
            0 <= adj_find(adj_view(adj@), v) <= adj@.len(),
            forall|j: int| 0 <= j < adj_find(adj_view(adj@), v) ==> (#[trigger] adj_view(adj@)[j]).0 != v,
            adj_find(adj_view(adj@), v) < adj@.len() ==> adj_view(adj@)[adj_find(adj_view(adj@), v)].0 == v,
        decreases adj@.len() - i,
    {
        if adj[i].0 == v {
            proof {
                let f = adj_find(adj_view(adj@), v);
                if f < i {
                    assert(adj@[f].0 != v);
                }
                if f > i {
                    assert(adj_view(adj@)[i as int].0 != v);
                }
            }
            return i;
        }
        i += 1;
    }
    proof {
        let f = adj_find(adj_view(adj@), v);
        if f < adj@.len() {
            assert(adj@[f].0 != v);
        }
    }
    i
}

/// Whether `es` holds `e`.
fn has_edge(es: &Vec<(u64, u64)>, e: (u64, u64)) -> (r: bool)
    ensures
        r == es@.contains(e),
{
    let mut k: usize = 0;
    while k < es.len()
        invariant
            k <= es@.len(),
            forall|j: int| 0 <= j < k ==> es@[j] != e,
        decreases es@.len() - k,
    {
        let x = es[k];
        if x.0 == e.0 && x.1 == e.1 {
            assert(es@[k as int] == e);
            return true;
        }
        k += 1;
    }
    false
}

/// Adds edge `e` to vertex `v`'s edges.
fn adj_add_exec(adj: &mut Vec<(u64, Vec<(u64, u64)>)>, v: u64, e: (u64, u64))
    ensures
        adj_view(final(adj)@) == adj_add(adj_view(old(adj)@), v, e),
{
    let ghost a0 = adj_view(adj@);
    let i = find_vertex(adj, v);
    proof {
        lemma_adj_find(a0, v);
    }
    if i < adj.len() {
        if !has_edge(&adj[i].1, e) {
            let (k, mut es) = adj.remove(i);
            es.push(e);
            adj.insert(i, (k, es));
            proof {
                assert(k == v);
                assert(adj_view(adj@) =~= a0.update(i as int, (v, a0[i as int].1.push(e))));
            }
        }
    } else {
        let mut es: Vec<(u64, u64)> = Vec::new();
        es.push(e);
        adj.push((v, es));
        proof {
            assert(es@ =~= seq![e]);
            assert(adj_view(adj@) =~= a0.push((v, seq![e])));
        }
    }
}

/// The source and destination of `h`.
fn src_dst_of(mesh: &MeshConnectivity, h: HalfEdgeId) -> (r: Result<(VertexId, VertexId), TraversalError>)
    requires
        mesh.well_formed(),
        mesh@.links_valid(),
        mesh@.has_halfedge(h),
    ensures
        r == src_dst(mesh@, h),
{
    proof {
        assert(mesh@.halfedge_links_ok(mesh@.halfedges[h.0]));
    }
    let he = mesh.halfedge(h);
    let a = match he.vertex {
        Some(a) => a,
        None => {
            return Err(TraversalError::HalfEdgeHasNoVertex(h));
        },
    };
    let n = match he.next {
        Some(n) => n,
        None => {
            return Err(TraversalError::HalfEdgeHasNoNext(h));
        },
    };
    match mesh.halfedge(n).vertex {
        Some(b) => Ok((a, b)),
        None => Err(TraversalError::HalfEdgeHasNoVertex(n)),
    }
}

/// The edges of the half-edges of `bag`, by vertex.
fn build_adj(mesh: &MeshConnectivity, bag: &[HalfEdgeId]) -> (r: Result<Vec<(u64, Vec<(u64, u64)>)>, TraversalError>)
    requires
        mesh.well_formed(),
        mesh@.links_valid(),
        bag_safe(mesh@, bag@, bag@.len() as int),
    ensures
        match r {
            Ok(a) => bag_adj(mesh@, bag@, bag@.len() as int) == Ok::<Adj, TraversalError>(adj_view(a@)),
            Err(e) => bag_adj(mesh@, bag@, bag@.len() as int) == Err::<Adj, TraversalError>(e),
        },
{
    let ghost m = mesh@;
    let mut adj: Vec<(u64, Vec<(u64, u64)>)> = Vec::new();
    let mut i: usize = 0;
    proof {
        assert(adj_view(adj@) =~= Seq::<(u64, Seq<(u64, u64)>)>::empty());
    }
    while i < bag.len()
        invariant
            mesh.well_formed(),
            mesh@.links_valid(),
            m == mesh@,
            i <= bag@.len(),
            bag_safe(m, bag@, bag@.len() as int),
            bag_adj(m, bag@, i as int) == Ok::<Adj, TraversalError>(adj_view(adj@)),
        decreases bag@.len() - i,
    {
        proof {
            lemma_bag_safe_prefix(m, bag@, i + 1, bag@.len() as int);
        }
        let h = bag[i];
        let (sv, dv) = match src_dst_of(mesh, h) {
            Ok(p) => p,
            Err(e) => {
                proof {
                    lemma_bag_adj_err_stays(m, bag@, i + 1, bag@.len() as int);
                }
                return Err(e);
            },
        };
        let t = match mesh.halfedge(h).twin {
            Some(t) => t,
            None => {
                proof {
                    lemma_bag_adj_err_stays(m, bag@, i + 1, bag@.len() as int);
                }
                return Err(TraversalError::HalfEdgeHasNoTwin(h));
            },
        };
        let e = if key_lt_exec(t.0, h.0) {
            (t.0, h.0)
        } else {
            (h.0, t.0)
        };
        adj_add_exec(&mut adj, sv.0, e);
        adj_add_exec(&mut adj, dv.0, e);
        i += 1;
    }
    Ok(adj)
}

proof fn lemma_bag_safe_prefix(m: MeshView, bag: Seq<HalfEdgeId>, i: int, n: int)
    requires
        0 <= i <= n,
        bag_safe(m, bag, n),
    ensures
        bag_safe(m, bag, i),
    decreases n - i,
{
    if i < n {
        lemma_bag_safe_prefix(m, bag, i, n - 1);
    }
}

proof fn lemma_bag_adj_err_stays(m: MeshView, bag: Seq<HalfEdgeId>, i: int, n: int)
    requires
        0 <= i <= n,
        bag_adj(m, bag, i) is Err,
    ensures
        bag_adj(m, bag, n) == bag_adj(m, bag, i),
    decreases n - i,
{
    if i < n {
        lemma_bag_adj_err_stays(m, bag, i, n - 1);
    }
}

/// The position of the smallest vertex, among those on one edge when `ends`
/// holds, or the length when there is none.
fn min_vertex_exec(adj: &Vec<(u64, Vec<(u64, u64)>)>, ends: bool) -> (r: usize)
    ensures
        r == min_vertex(adj_view(adj@), ends),
{
    let ghost a = adj_view(adj@);
    let mut best: usize = 0;
    let mut i: usize = 0;
    while i < adj.len()
        invariant
            a == adj_view(adj@),
            i <= adj@.len(),
            best == (if i == 0 { 0 } else { min_vertex(a.take(i as int), ends) }),
            i > 0 ==> best <= i,
        decreases adj@.len() - i,
    {
        let ghost t = a.take(i + 1);
        proof {
            assert(t.drop_last() =~= a.take(i as int));
            assert(t[i as int] == a[i as int]);
            assert(a[i as int] == (adj@[i as int].0, adj@[i as int].1@));
            if i > 0 && best < i {
                assert(a[best as int] == (adj@[best as int].0, adj@[best as int].1@));
            }
            if i == 0 {
                assert(t.drop_last().len() == 0);
                assert(min_vertex(t.drop_last(), ends) == 0);
            }
            if i > 0 {
                lemma_min_vertex_range(a.take(i as int), ends);
                if best < i {
                    assert(t[best as int] == a[best as int]);
                }
            }
        }
        let ok = !ends || adj[i].1.len() == 1;
        if i == 0 {
            best = if ok { 0 } else { 1 };
        } else if !ok {
            if best < i {
            } else {
                best = i + 1;
            }
        } else if best < i && !key_lt_exec(adj[i].0, adj[best].0) {
        } else {
            best = i;
        }
        i += 1;
    }
    proof {
        assert(a.take(adj@.len() as int) =~= a);
    }
    best
}

proof fn lemma_min_vertex_range(a: Adj, ends: bool)
    ensures
        0 <= min_vertex(a, ends) <= a.len(),
    decreases a.len(),
{
    if a.len() > 0 {
        lemma_min_vertex_range(a.drop_last(), ends);
    }
}

proof fn lemma_min_edge_range(es: Seq<(u64, u64)>)
    requires
        es.len() > 0,
    ensures
        0 <= min_edge(es) < es.len(),
    decreases es.len(),
{
    if es.len() > 1 {
        lemma_min_edge_range(es.drop_last());
    }
}

/// The position of the smallest edge of the non-empty `es`.
fn min_edge_exec(es: &Vec<(u64, u64)>) -> (r: usize)
    requires
        es@.len() > 0,
    ensures
        r == min_edge(es@),
        r < es@.len(),
{
    let mut best: usize = 0;
    let mut i: usize = 1;
    while i < es.len()
        invariant
            1 <= i <= es@.len(),
            best == min_edge(es@.take(i as int)),
            best < i,
        decreases es@.len() - i,
    {
        proof {
            let t = es@.take(i + 1);
            assert(t.drop_last() =~= es@.take(i as int));
            assert(t.last() == es@[i as int]);
            assert(t[best as int] == es@[best as int]);
        }
        if edge_lt_exec(es[i], es[best]) {
            best = i;
        }
        i += 1;
    }
    proof {
        assert(es@.take(es@.len() as int) =~= es@);
        assert(es@.take(1).len() == 1);
    }
    best
}

/// `es` without `e`.
fn without_exec(es: &Vec<(u64, u64)>, e: (u64, u64)) -> (r: Vec<(u64, u64)>)
    ensures
        r@ == without(es@, e),
{
    let mut r: Vec<(u64, u64)> = Vec::new();
    let mut i: usize = 0;
    while i < es.len()
        invariant
            i <= es@.len(),
            r@ == es@.take(i as int).filter(differs(e)),
        decreases es@.len() - i,
    {
        let x = es[i];
        proof {
            assert(es@.take(i + 1) =~= es@.take(i as int).push(x));
            es@.take(i as int).lemma_filter_push(x, differs(e));
        }
        if !(x.0 == e.0 && x.1 == e.1) {
            r.push(x);
        }
        i += 1;
    }
    proof {
        assert(es@.take(es@.len() as int) =~= es@);
    }
    r
}

/// The half-edges of `bag` on neither side of `e`.
fn keep_others(bag: &[HalfEdgeId], e: (u64, u64)) -> (r: Vec<HalfEdgeId>)
    ensures
        r@ == bag@.filter(keeps(e)),
{
    let mut r: Vec<HalfEdgeId> = Vec::new();
    let mut i: usize = 0;
    while i < bag.len()
        invariant
            i <= bag@.len(),
            r@ == bag@.take(i as int).filter(keeps(e)),
        decreases bag@.len() - i,
    {
        let h = bag[i];
        proof {
            assert(bag@.take(i + 1) =~= bag@.take(i as int).push(h));
            bag@.take(i as int).lemma_filter_push(h, keeps(e));
        }
        if h.0 != e.0 && h.0 != e.1 {
            r.push(h);
        }
        i += 1;
    }
    proof {
        assert(bag@.take(bag@.len() as int) =~= bag@);
    }
    r
}

proof fn lemma_min_vertex_any(a: Adj)
    requires
        a.len() > 0,
    ensures
        0 <= min_vertex(a, false) < a.len(),
    decreases a.len(),
{
    if a.len() > 1 {
        lemma_min_vertex_any(a.drop_last());
    } else {
        assert(min_vertex(a.drop_last(), false) == 0);
    }
}

/// Whether `s` holds `v`.
fn has_key(s: &Vec<u64>, v: u64) -> (r: bool)
    ensures
        r == s@.contains(v),
{
    let mut k: usize = 0;
    while k < s.len()
        invariant
            k <= s@.len(),
            forall|j: int| 0 <= j < k ==> s@[j] != v,
        decreases s@.len() - k,
    {
        if s[k] == v {
            assert(s@[k as int] == v);
            return true;
        }
        k += 1;
    }
    false
}

/// The keys as vertex ids.
fn to_ids(s: &Vec<u64>) -> (r: Vec<VertexId>)
    ensures
        r@ == as_vertex_ids(s@),
{
    let mut r: Vec<VertexId> = Vec::new();
    let mut i: usize = 0;
    while i < s.len()
        invariant
            i <= s@.len(),
            r@ == as_vertex_ids(s@.take(i as int)),
        decreases s@.len() - i,
    {
        r.push(VertexId(s[i]));
        i += 1;
        assert(r@ =~= as_vertex_ids(s@.take(i as int)));
    }
    assert(s@.take(s@.len() as int) =~= s@);
    r
}

/// Walks the chain from `start`; see `chain_walk`.
fn walk_chain(mesh: &MeshConnectivity, adj: Vec<(u64, Vec<(u64, u64)>)>, start: u64, Ghost(a0): Ghost<Adj>) -> (r: Result<Vec<u64>, EditError>)
    requires
        mesh.well_formed(),
        mesh@.links_valid(),
        adj_view(adj@) == a0,
        chain_walk(mesh@, a0, start, Seq::empty()).1,
    ensures
        match r {
            Ok(vs) => chain_walk(mesh@, a0, start, Seq::empty()).0 == Ok::<Seq<u64>, EditError>(vs@),
            Err(e) => chain_walk(mesh@, a0, start, Seq::empty()).0 == Err::<Seq<u64>, EditError>(e),
        },
{
    let ghost m = mesh@;
    let ghost n = adj@.len();
    let mut adj = adj;
    let mut v = start;
    let mut sorted: Vec<u64> = Vec::new();
    loop
        invariant
            mesh.well_formed(),
            mesh@.links_valid(),
            m == mesh@,
            adj@.len() == n,
            sorted@.len() <= n,
            chain_walk(m, adj_view(adj@), v, sorted@).0 == chain_walk(m, a0, start, Seq::empty()).0,
            chain_walk(m, adj_view(adj@), v, sorted@).1,
        decreases n - sorted@.len(),
    {
        let ghost a = adj_view(adj@);
        if sorted.len() >= adj.len() {
            return Ok(sorted);
        }
        if has_key(&sorted, v) {
            return Err(EditError::NotAChain);
        }
        let i = find_vertex(&adj, v);
        proof {
            lemma_adj_find(a, v);
            assert(a[i as int] == (adj@[i as int].0, adj@[i as int].1@));
        }
        let n_es = adj[i].1.len();
        if n_es == 1 {
            let e = adj[i].1[0];
            let (sv, dv) = match src_dst_of(mesh, HalfEdgeId(e.0)) {
                Ok(p) => p,
                Err(_) => {
                    return Err(EditError::NotAChain);
                },
            };
            let w = if v == sv.0 {
                dv.0
            } else {
                sv.0
            };
            let (k, _) = adj.remove(i);
            adj.insert(i, (v, Vec::new()));
            let ghost a1 = adj_view(adj@);
            proof {
                assert(a1 =~= a.update(i as int, (v, Seq::<(u64, u64)>::empty())));
            }
            let j = find_vertex(&adj, w);
            proof {
                lemma_adj_find(a1, w);
                assert(a1[j as int] == (adj@[j as int].0, adj@[j as int].1@));
            }
            let (kw, esw) = adj.remove(j);
            let nw = without_exec(&esw, e);
            adj.insert(j, (kw, nw));
            proof {
                assert(kw == w);
                assert(adj_view(adj@) =~= a1.update(j as int, (w, without(a1[j as int].1, e))));
            }
            sorted.push(v);
            v = w;
        } else if n_es == 0 {
            sorted.push(v);
            return Ok(sorted);
        } else {
            return Err(EditError::NotAChain);
        }
    }
}

/// Whether `r` is the vector form of the outcome `o`.
pub open spec fn sort_result_is(r: Result<(Vec<VertexId>, bool), EditError>, o: Result<(Seq<VertexId>, bool), EditError>) -> bool {
    match r {
        Ok((vs, c)) => o == Ok::<(Seq<VertexId>, bool), EditError>((vs@, c)),
        Err(e) => o == Err::<(Seq<VertexId>, bool), EditError>(e),
    }
}

/// Sorts a bag of half-edges into the chain of vertices their edges make,
/// from an end of the chain; also says whether the edges closed a loop.
pub fn sort_bag_of_edges(mesh: &MeshConnectivity, bag: &[HalfEdgeId]) -> (r: Result<(Vec<VertexId>, bool), EditError>)
    requires
        mesh.well_formed(),
        mesh@.links_valid(),
        sort_outcome(mesh@, bag@).1,
    ensures
        sort_result_is(r, sort_outcome(mesh@, bag@).0),
    decreases bag@.len(),
{
    let ghost m = mesh@;
    if bag.len() == 0 {
        return Err(EditError::EmptyBag);
    }
    let adj = match build_adj(mesh, bag) {
        Ok(a) => a,
        Err(e) => {
            return Err(EditError::Traversal(e));
        },
    };
    let ghost a = adj_view(adj@);
    let ep = min_vertex_exec(&adj, true);
    if ep >= adj.len() {
        let v0 = min_vertex_exec(&adj, false);
        proof {
            lemma_bag_adj(m, bag@, bag@.len() as int);
            lemma_min_vertex_any(a);
            assert(a[v0 as int] == (adj@[v0 as int].0, adj@[v0 as int].1@));
        }
        let es = &adj[v0].1;
        let k = min_edge_exec(es);
        let e = es[k];
        let nb = keep_others(bag, e);
        proof {
            assert(from_bag(m, bag@, bag@.len() as int, a[v0 as int].1[k as int]));
            let k0 = choose|k0: int| 0 <= k0 < bag@.len() && (#[trigger] m.halfedges[bag@[k0].0].twin matches Some(t) && e == edge_of(bag@[k0].0, t.0));
            assert(!(keeps(e))(bag@[k0]));
            lemma_filter_smaller(bag@, keeps(e), k0);
        }
        match sort_bag_of_edges(mesh, &nb) {
            Ok((vs, _)) => Ok((vs, true)),
            Err(x) => Err(x),
        }
    } else {
        proof {
            assert(a[ep as int] == (adj@[ep as int].0, adj@[ep as int].1@));
        }
        let start = adj[ep].0;
        match walk_chain(mesh, adj, start, Ghost(a)) {
            Ok(vs) => Ok((to_ids(&vs), false)),
            Err(x) => Err(x),
        }
    }
}

/// A chain walk that starts from distinct vertices passes each vertex once.
proof fn lemma_chain_walk_distinct(m: MeshView, adj: Adj, v: u64, sorted: Seq<u64>)
    requires
        sorted.no_duplicates(),
    ensures
        chain_walk(m, adj, v, sorted).0 matches Ok(s) ==> s.no_duplicates(),
    decreases adj.len() - sorted.len(),
{
    if sorted.len() < adj.len() && !sorted.contains(v) {
        let i = adj_find(adj, v);
        assert(sorted.push(v).no_duplicates()) by {
            assert forall|a: int, b: int| 0 <= a < b < sorted.push(v).len() implies sorted.push(v)[a] != sorted.push(v)[b] by {
                if b == sorted.len() {
                    assert(sorted.push(v)[a] == sorted[a]);
                }
            }
        }
        if 0 <= i < adj.len() && adj[i].1.len() == 1 {
            let e = adj[i].1[0];
            let w = other_end(m, e, v);
            let adj1 = adj.update(i, (v, Seq::empty()));
            let j = adj_find(adj1, w);
            if 0 <= j < adj1.len() {
                let adj2 = adj1.update(j, (w, without(adj1[j].1, e)));
                lemma_chain_walk_distinct(m, adj2, w, sorted.push(v));
            }
        }
    }
}

/// The chain that sorting a bag of edges gives passes each vertex once.
pub proof fn lemma_sorted_chain_distinct(m: MeshView, bag: Seq<HalfEdgeId>)
    ensures
        sort_outcome(m, bag).0 matches Ok((vs, _)) ==> vs.no_duplicates(),
    decreases bag.len(),
{
    if bag.len() > 0 {
        if let Ok(adj) = bag_adj(m, bag, bag.len() as int) {
            let ep = min_vertex(adj, true);
            if ep >= adj.len() {
                let v0 = min_vertex(adj, false);
                if 0 <= v0 < adj.len() && adj[v0].1.len() > 0 {
                    let es = adj[v0].1;
                    let e = es[min_edge(es)];
                    let nb = bag.filter(keeps(e));
                    if nb.len() < bag.len() {
                        lemma_sorted_chain_distinct(m, nb);
                    }
                }
            } else {
                lemma_chain_walk_distinct(m, adj, adj[ep].0, Seq::empty());
                if let Ok(s) = chain_walk(m, adj, adj[ep].0, Seq::empty()).0 {
                    let ids = as_vertex_ids(s);
                    assert forall|a: int, b: int| 0 <= a < b < ids.len() implies ids[a] != ids[b] by {
                        assert(s[a] != s[b]);
                    }
                }
            }
        }
    }
}

/// Edge `e` is listed in `adj`.
pub open spec fn adj_has_edge(adj: Adj, e: (u64, u64)) -> bool {
    exists|p: int, q: int| 0 <= p < adj.len() && 0 <= q < adj[p].1.len() && #[trigger] adj[p].1[q] == e
}

/// From `a`, the edge of one of the half-edges of `bag` leads to `b`.
pub open spec fn linked_by_bag(m: MeshView, bag: Seq<HalfEdgeId>, a: u64, b: u64) -> bool {
    exists|k: int|
        0 <= k < bag.len() && (#[trigger] m.halfedges[bag[k].0].twin matches Some(t) && b == other_end(m, edge_of(bag[k].0, t.0), a))
}

/// A chain walk from `v` after `sorted` keeps `sorted`, goes on with `v`,
/// and steps each time along an edge that `adj` lists.
proof fn lemma_chain_walk_links(m: MeshView, adj: Adj, v: u64, sorted: Seq<u64>)
    ensures
        chain_walk(m, adj, v, sorted).0 matches Ok(s) ==> {
            &&& s.len() >= sorted.len()
            &&& s.take(sorted.len() as int) == sorted
            &&& s.len() > sorted.len() ==> s[sorted.len() as int] == v
            &&& forall|k: int| sorted.len() <= k < s.len() - 1 ==> exists|e: (u64, u64)| adj_has_edge(adj, e) && #[trigger] s[k + 1] == other_end(m, e, s[k])
        },
    decreases adj.len() - sorted.len(),
{
    if sorted.len() >= adj.len() {
        assert(sorted.take(sorted.len() as int) =~= sorted);
    } else if !sorted.contains(v) {
        let i = adj_find(adj, v);
        if 0 <= i < adj.len() {
            let es = adj[i].1;
            if es.len() == 1 {
                let e = es[0];
                let w = other_end(m, e, v);
                let adj1 = adj.update(i, (v, Seq::empty()));
                let j = adj_find(adj1, w);
                if 0 <= j < adj1.len() {
                    let adj2 = adj1.update(j, (w, without(adj1[j].1, e)));
                    let sp = sorted.push(v);
                    lemma_chain_walk_links(m, adj2, w, sp);
                    if let Ok(s) = chain_walk(m, adj2, w, sp).0 {
                        assert(chain_walk(m, adj, v, sorted).0 == Ok::<Seq<u64>, EditError>(s));
                        assert(s.take(sorted.len() as int) =~= sorted) by {
                            assert forall|x: int| 0 <= x < sorted.len() implies s.take(sorted.len() as int)[x] == sorted[x] by {
                                assert(s.take(sp.len() as int)[x] == sp[x]);
                            }
                        }
                        assert(s[sorted.len() as int] == v) by {
                            assert(s.take(sp.len() as int)[sorted.len() as int] == sp[sorted.len() as int]);
                        }
                        assert(adj_has_edge(adj, e)) by {
                            assert(adj[i].1[0] == e);
                        }
                        assert forall|k: int| sorted.len() <= k < s.len() - 1 implies exists|e2: (u64, u64)| adj_has_edge(adj, e2) && #[trigger] s[k + 1] == other_end(m, e2, s[k]) by {
                            if k == sorted.len() {
                                if s.len() > sp.len() {
                                    assert(s[k + 1] == w);
                                }
                                assert(s[k + 1] == other_end(m, e, s[k]));
                            } else {
                                let e2 = choose|e2: (u64, u64)| adj_has_edge(adj2, e2) && #[trigger] s[k + 1] == other_end(m, e2, s[k]);
                                let (p, q) = choose|p: int, q: int| 0 <= p < adj2.len() && 0 <= q < adj2[p].1.len() && #[trigger] adj2[p].1[q] == e2;
                                if p == j {
                                    assert(without(adj1[j].1, e).contains(e2)) by {
                                        assert(without(adj1[j].1, e)[q] == e2);
                                    }
                                    adj1[j].1.lemma_filter_contains_rev(differs(e), e2);
                                    let q2 = choose|q2: int| 0 <= q2 < adj1[j].1.len() && adj1[j].1[q2] == e2;
                                    assert(j != i);
                                    assert(adj[j].1[q2] == e2);
                                } else {
                                    assert(p != i);
                                    assert(adj[p].1[q] == e2);
                                }
                                assert(adj_has_edge(adj, e2));
                            }
                        }
                    }
                }
            } else if es.len() == 0 {
                let s = sorted.push(v);
                assert(s.take(sorted.len() as int) =~= sorted);
            }
        }
    }
}

/// Each step of the chain that sorting a bag of edges gives goes along the
/// edge of a half-edge of the bag.
pub proof fn lemma_sorted_chain_linked(m: MeshView, bag: Seq<HalfEdgeId>)
    ensures
        sort_outcome(m, bag).0 matches Ok((vs, _)) ==> forall|k: int|
            0 <= k < vs.len() - 1 ==> #[trigger] linked_by_bag(m, bag, vs[k].0, vs[k + 1].0),
    decreases bag.len(),
{
    if bag.len() > 0 {
        if let Ok(adj) = bag_adj(m, bag, bag.len() as int) {
            lemma_bag_adj(m, bag, bag.len() as int);
            let ep = min_vertex(adj, true);
            if ep >= adj.len() {
                let v0 = min_vertex(adj, false);
                if 0 <= v0 < adj.len() && adj[v0].1.len() > 0 {
                    let es = adj[v0].1;
                    let e = es[min_edge(es)];
                    let nb = bag.filter(keeps(e));
                    if nb.len() < bag.len() {
                        lemma_sorted_chain_linked(m, nb);
                        if let Ok((vs, _)) = sort_outcome(m, nb).0 {
                            assert forall|k: int| 0 <= k < vs.len() - 1 implies #[trigger] linked_by_bag(m, bag, vs[k].0, vs[k + 1].0) by {
                                assert(linked_by_bag(m, nb, vs[k].0, vs[k + 1].0));
                                let x = choose|x: int| 0 <= x < nb.len() && (#[trigger] m.halfedges[nb[x].0].twin matches Some(t) && vs[k + 1].0 == other_end(m, edge_of(nb[x].0, t.0), vs[k].0));
                                assert(nb.contains(nb[x]));
                                bag.lemma_filter_contains_rev(keeps(e), nb[x]);
                                let y = choose|y: int| 0 <= y < bag.len() && bag[y] == nb[x];
                                assert(m.halfedges[bag[y].0].twin == m.halfedges[nb[x].0].twin);
                            }
                        }
                    }
                }
            } else {
                lemma_chain_walk_links(m, adj, adj[ep].0, Seq::empty());
                if let Ok(s) = chain_walk(m, adj, adj[ep].0, Seq::empty()).0 {
                    let ids = as_vertex_ids(s);
                    assert forall|k: int| 0 <= k < ids.len() - 1 implies #[trigger] linked_by_bag(m, bag, ids[k].0, ids[k + 1].0) by {
                        let e2 = choose|e2: (u64, u64)| adj_has_edge(adj, e2) && #[trigger] s[k + 1] == other_end(m, e2, s[k]);
                        let (p, q) = choose|p: int, q: int| 0 <= p < adj.len() && 0 <= q < adj[p].1.len() && #[trigger] adj[p].1[q] == e2;
                        assert(from_bag(m, bag, bag.len() as int, adj[p].1[q]));
                        let x = choose|x: int| 0 <= x < bag.len() as int && (#[trigger] m.halfedges[bag[x].0].twin matches Some(t) && e2 == edge_of(bag[x].0, t.0));
                        assert(m.halfedges[bag[x].0].twin == m.halfedges[bag[x].0].twin);
                    }
                }
            }
        }
    }
}

} // verus!
