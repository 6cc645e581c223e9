//! Polylines: meshes made of a chain of edges and no faces, grown one edge
//! at a time from their tip.
use vstd::prelude::*;

use crate::edit_ops::{same_groups, with_next, EditError};
use crate::edit_ops::dissolve::outgoing_of;
use crate::halfedge::{is_cycle_of, lemma_cycle_outcome, walk, walk_closes, walk_outcome, walk_terminates, Face, HalfEdge, HalfEdgeId, MeshView, Vertex, VertexId, WalkKind};
use crate::mesh::HalfEdgeMesh;
use crate::traversals::{map_twins, AnyTraversal, TraversalError, VertexTraversalHelpers};
use glam::Vec3;

verus! {

/// The half-edge into `start` and the one out of it, when `start` is the tip
/// of a curve: exactly one of each. The incoming count is checked first.
pub open spec fn chain_tip(m: MeshView, start: VertexId) -> Result<(HalfEdgeId, HalfEdgeId), EditError> {
    match outgoing_of(m, start) {
        Err(e) => Err(EditError::Traversal(e)),
        Ok(o) => match map_twins(m, o) {
            Err(e) => Err(EditError::Traversal(e)),
            Ok(i) => if i.len() != 1 {
                Err(EditError::NotOneIncoming(start))
            } else if o.len() != 1 {
                Err(EditError::NotOneOutgoing(start))
            } else {
                Ok((i[0], o[0]))
            },
        },
    }
}

/// `b` is `a` with the edge from `start` to the new vertex `v` at `end`:
/// `a_h` goes from `start` to `v`, `b_h` back, and the curve's last
/// half-edge `e_inc` now leads into `a_h`, while `b_h` leads into `e_out`.
pub open spec fn chain_extended(
    a: HalfEdgeMesh,
    b: HalfEdgeMesh,
    start: VertexId,
    end: Vec3,
    e_inc: HalfEdgeId,
    e_out: HalfEdgeId,
    v: VertexId,
    a_h: HalfEdgeId,
    b_h: HalfEdgeId,
) -> bool {
    let m = a.connectivity@;
    &&& !m.has_vertex(v)
    &&& !m.has_halfedge(a_h) && !m.has_halfedge(b_h) && a_h != b_h
    &&& b.connectivity@.vertices == m.vertices.insert(v.0, Vertex { halfedge: Some(b_h) })
    &&& b.connectivity@.halfedges == m.halfedges.insert(
        a_h.0,
        HalfEdge { twin: Some(b_h), next: Some(b_h), vertex: Some(start), face: None },
    ).insert(b_h.0, HalfEdge { twin: Some(a_h), next: Some(e_out), vertex: Some(v), face: None }).insert(
        e_inc.0,
        with_next(m.halfedges[e_inc.0], Some(a_h)),
    )
    &&& b.connectivity@.faces == m.faces
    &&& b.positions.values() == a.positions.values().insert(v.0, end)
    &&& b.positions.default == a.positions.default
    &&& same_groups(b, a)
}

/// `b` is `a` grown by an edge from `start` to the new vertex `v` at `end`,
/// over some two new half-edges.
pub open spec fn chain_grown(
    a: HalfEdgeMesh,
    b: HalfEdgeMesh,
    start: VertexId,
    end: Vec3,
    e_inc: HalfEdgeId,
    e_out: HalfEdgeId,
    v: VertexId,
) -> bool {
    exists|a_h: HalfEdgeId, b_h: HalfEdgeId| #[trigger] chain_extended(a, b, start, end, e_inc, e_out, v, a_h, b_h)
}

/// Grows the curve whose tip is `start` by an edge to a new vertex at `end`,
/// and returns that vertex. Fails unless `start` has exactly one incoming
/// and one outgoing half-edge.
pub fn add_edge_chain(mesh: &mut HalfEdgeMesh, start: VertexId, end: Vec3) -> (r: Result<VertexId, EditError>)
    requires
        old(mesh).well_formed(),
        old(mesh).connectivity@.links_valid(),
        old(mesh).connectivity@.has_vertex(start),
        old(mesh).connectivity@.has_room(2),
        old(mesh).connectivity@.vertices[start.0].halfedge matches Some(h) ==> walk_terminates(
            old(mesh).connectivity@,
            WalkKind::Fan,
            h.0,
        ),
    ensures
        final(mesh).well_formed(),
        final(mesh).connectivity@.links_valid(),
        match chain_tip(old(mesh).connectivity@, start) {
            Err(e) => r == Err::<VertexId, EditError>(e) && *final(mesh) == *old(mesh),
            Ok((e_inc, e_out)) => r matches Ok(v) && chain_grown(*old(mesh), *final(mesh), start, end, e_inc, e_out, v),
        },
{
    let ghost m = mesh.connectivity@;
    let (e_inc, e_out) = {
        let tv = mesh.connectivity.at_vertex(start);
        let outgoing = match tv.outgoing_halfedges() {
            Ok(o) => o,
            Err(e) => {
                return Err(EditError::Traversal(e));
            },
        };
        let incoming = match tv.incoming_halfedges() {
            Ok(i) => i,
            Err(e) => {
                return Err(EditError::Traversal(e));
            },
        };
        if incoming.len() != 1 {
            return Err(EditError::NotOneIncoming(start));
        }
        if outgoing.len() != 1 {
            return Err(EditError::NotOneOutgoing(start));
        }
        proof {
            let o = outgoing@;
            assert(outgoing_of(m, start) == Ok::<Seq<HalfEdgeId>, TraversalError>(o));
            assert(map_twins(m, o) == Ok::<Seq<HalfEdgeId>, TraversalError>(incoming@));
            assert(m.halfedge_links_ok(m.halfedges[o[0].0]));
            assert(o.drop_last() =~= Seq::<HalfEdgeId>::empty());
            assert(map_twins(m, o.drop_last()) == Ok::<Seq<HalfEdgeId>, TraversalError>(Seq::empty()));
            assert(m.halfedges[o[0].0].twin == Some(incoming@[0]));
            assert(chain_tip(m, start) == Ok::<(HalfEdgeId, HalfEdgeId), EditError>((incoming@[0], o[0])));
        }
        (incoming[0], outgoing[0])
    };
    assert(chain_tip(m, start) == Ok::<(HalfEdgeId, HalfEdgeId), EditError>((e_inc, e_out)));
    assert(m.has_halfedge(e_out));
    assert(m.has_halfedge(e_inc));
    let end_v = mesh.alloc_vertex_at(end);
    let a_h = mesh.connectivity.alloc_halfedge(HalfEdge::new_unlinked());
    let b_h = mesh.connectivity.alloc_halfedge(HalfEdge::new_unlinked());
    mesh.connectivity.set_halfedge(a_h, HalfEdge { twin: Some(b_h), next: Some(b_h), vertex: Some(start), face: None });
    mesh.connectivity.set_halfedge(b_h, HalfEdge { twin: Some(a_h), next: Some(e_out), vertex: Some(end_v), face: None });
    let inc = mesh.connectivity.halfedge(e_inc);
    mesh.connectivity.set_halfedge(e_inc, HalfEdge { twin: inc.twin, next: Some(a_h), vertex: inc.vertex, face: inc.face });
    mesh.connectivity.set_vertex(end_v, Vertex { halfedge: Some(b_h) });
    proof {
        assert(mesh.connectivity@.vertices =~= m.vertices.insert(end_v.0, Vertex { halfedge: Some(b_h) }));
        assert(mesh.connectivity@.halfedges =~= m.halfedges.insert(
            a_h.0,
            HalfEdge { twin: Some(b_h), next: Some(b_h), vertex: Some(start), face: None },
        ).insert(b_h.0, HalfEdge { twin: Some(a_h), next: Some(e_out), vertex: Some(end_v), face: None }).insert(
            e_inc.0,
            with_next(m.halfedges[e_inc.0], Some(a_h)),
        ));
        assert(chain_extended(*old(mesh), *mesh, start, end, e_inc, e_out, end_v, a_h, b_h));
        assert(chain_grown(*old(mesh), *mesh, start, end, e_inc, e_out, end_v));
    }
    Ok(end_v)
}

/// The half-edges of a polyline through the vertices `vs`: `f[i]` goes
/// from `vs[i]` to `vs[i + 1]` and `b[i]` back, each the other's twin. A
/// forward half-edge leads to the next one, the last to its twin; a backward
/// one leads to the previous, the first to `f[0]`. None has a face.
pub open spec fn polyline_links(hs: Map<u64, HalfEdge>, vs: Seq<VertexId>, f: Seq<HalfEdgeId>, b: Seq<HalfEdgeId>) -> bool {
    let n = f.len();
    &&& n >= 1 && vs.len() == n + 1 && b.len() == n
    &&& forall|i: int| #![trigger hs[f[i].0]] 0 <= i < n ==> hs.dom().contains(f[i].0) && hs[f[i].0] == HalfEdge {
        twin: Some(b[i]),
        next: Some(if i + 1 < n { f[i + 1] } else { b[i] }),
        vertex: Some(vs[i]),
        face: None,
    }
    &&& forall|i: int| #![trigger hs[b[i].0]] 0 <= i < n ==> hs.dom().contains(b[i].0) && hs[b[i].0] == HalfEdge {
        twin: Some(f[i]),
        next: Some(if i > 0 { b[i - 1] } else { f[0] }),
        vertex: Some(vs[i + 1]),
        face: None,
    }
}

/// The elements of `m` are exactly the vertices `vs` and the half-edges `f`
/// and `b`, all distinct, and no face.
pub open spec fn polyline_elements(m: MeshView, vs: Seq<VertexId>, f: Seq<HalfEdgeId>, b: Seq<HalfEdgeId>) -> bool {
    &&& forall|i: int, j: int| 0 <= i < j < vs.len() ==> #[trigger] vs[i] != #[trigger] vs[j]
    &&& forall|i: int, j: int| 0 <= i < j < f.len() ==> #[trigger] f[i] != #[trigger] f[j]
    &&& forall|i: int, j: int| 0 <= i < j < b.len() ==> #[trigger] b[i] != #[trigger] b[j]
    &&& forall|i: int, j: int| 0 <= i < f.len() && 0 <= j < b.len() ==> #[trigger] f[i] != #[trigger] b[j]
    &&& forall|k: u64| #[trigger] m.vertices.dom().contains(k) <==> exists|i: int| 0 <= i < vs.len() && vs[i].0 == k
    &&& forall|k: u64| #[trigger] m.halfedges.dom().contains(k) <==> exists|i: int|
        0 <= i < f.len() && (f[i].0 == k || b[i].0 == k)
    &&& m.faces == Map::<u64, Face>::empty()
}

/// `m` is the polyline through `pts`, as `add_edge` and `add_edge_chain`
/// build it: the first vertex holds its forward half-edge, every other
/// vertex the backward half-edge that leaves it.
pub open spec fn is_polyline_through(m: HalfEdgeMesh, pts: Seq<Vec3>) -> bool {
    exists|vs: Seq<VertexId>, f: Seq<HalfEdgeId>, b: Seq<HalfEdgeId>| #[trigger] polyline_at(m, pts, vs, f, b)
}

/// `m` is the polyline through `pts` on the vertices `vs` and the
/// half-edges `f` and `b`.
pub open spec fn polyline_at(m: HalfEdgeMesh, pts: Seq<Vec3>, vs: Seq<VertexId>, f: Seq<HalfEdgeId>, b: Seq<HalfEdgeId>) -> bool {
    let c = m.connectivity@;
    &&& vs.len() == pts.len()
    &&& polyline_links(c.halfedges, vs, f, b)
    &&& polyline_elements(c, vs, f, b)
    &&& c.vertices[vs[0].0] == Vertex { halfedge: Some(f[0]) }
    &&& forall|i: int| 1 <= i < vs.len() ==> c.vertices[(#[trigger] vs[i]).0] == Vertex { halfedge: Some(b[i - 1]) }
    &&& forall|i: int| 0 <= i < vs.len() ==> m.positions.values()[(#[trigger] vs[i]).0] == pts[i]
    &&& forall|k: u64| #[trigger] m.positions.values().dom().contains(k) <==> c.vertices.dom().contains(k)
}

/// The fan of the tip of a polyline is its last backward half-edge alone.
proof fn lemma_tip_fan(m: MeshView, vs: Seq<VertexId>, f: Seq<HalfEdgeId>, b: Seq<HalfEdgeId>)
    requires
        polyline_links(m.halfedges, vs, f, b),
    ensures
        walk(m, WalkKind::Fan, b.last().0, 1) == Ok::<u64, TraversalError>(b.last().0),
        walk_terminates(m, WalkKind::Fan, b.last().0),
        walk_outcome(m, WalkKind::Fan, b.last().0) == Ok::<Seq<HalfEdgeId>, TraversalError>(seq![b.last()]),
        map_twins(m, seq![b.last()]) == Ok::<Seq<HalfEdgeId>, TraversalError>(seq![f.last()]),
{
    let n = f.len() as int;
    assert(m.halfedges[b[n - 1].0].twin == Some(f[n - 1]));
    assert(m.halfedges[f[n - 1].0].next == Some(b[n - 1]));
    assert(walk(m, WalkKind::Fan, b.last().0, 0) == Ok::<u64, TraversalError>(b.last().0));
    assert(walk_closes(m, WalkKind::Fan, b.last().0, 1));
    assert(is_cycle_of(m, WalkKind::Fan, b.last().0, seq![b.last()]));
    lemma_cycle_outcome(m, WalkKind::Fan, b.last().0, seq![b.last()]);
    assert(seq![b.last()].drop_last() =~= Seq::<HalfEdgeId>::empty());
    assert(map_twins(m, seq![b.last()].drop_last()) == Ok::<Seq<HalfEdgeId>, TraversalError>(Seq::empty()));
    assert(seq![b.last()].last() == b.last());
    assert(Seq::<HalfEdgeId>::empty().push(f.last()) =~= seq![f.last()]);
}

/// Growing the polyline through the first `i` points by the next point
/// gives the polyline through the first `i + 1`.
#[verifier::spinoff_prover]
#[verifier::rlimit(60)]
proof fn lemma_polyline_grows(
    before: HalfEdgeMesh,
    after: HalfEdgeMesh,
    pts: Seq<Vec3>,
    i: int,
    vs: Seq<VertexId>,
    f: Seq<HalfEdgeId>,
    b: Seq<HalfEdgeId>,
    v: VertexId,
    a_h: HalfEdgeId,
    b_h: HalfEdgeId,
)
    requires
        2 <= i < pts.len(),
        before.well_formed(),
        polyline_at(before, pts.take(i), vs, f, b),
        chain_extended(before, after, vs.last(), pts[i], f.last(), b.last(), v, a_h, b_h),
    ensures
        polyline_at(after, pts.take(i + 1), vs.push(v), f.push(a_h), b.push(b_h)),
        after.connectivity@.vertices.dom().len() == before.connectivity@.vertices.dom().len() + 1,
        after.connectivity@.halfedges.dom().len() == before.connectivity@.halfedges.dom().len() + 2,
        after.connectivity@.faces == before.connectivity@.faces,
{
    let m = before.connectivity@;
    let c = after.connectivity@;
    let n = f.len() as int;
    let vs2 = vs.push(v);
    let f2 = f.push(a_h);
    let b2 = b.push(b_h);
    let pts2 = pts.take(i + 1);
    assert(vs.len() == i);
    assert forall|j: int| 0 <= j < n implies m.halfedges.dom().contains((#[trigger] f[j]).0) && f[j] != a_h && f[j] != b_h by {
        assert(m.halfedges[f[j].0] == m.halfedges[f[j].0]);
    }
    assert forall|j: int| 0 <= j < n implies m.halfedges.dom().contains((#[trigger] b[j]).0) && b[j] != a_h && b[j] != b_h by {
        assert(m.halfedges[b[j].0] == m.halfedges[b[j].0]);
    }
    assert forall|j: int| 0 <= j < vs.len() implies m.vertices.dom().contains((#[trigger] vs[j]).0) && vs[j] != v by {
        assert(exists|t: int| 0 <= t < vs.len() && vs[t].0 == vs[j].0);
    }
    assert forall|j: int| #![trigger c.halfedges[f2[j].0]] 0 <= j < n + 1 implies c.halfedges.dom().contains(f2[j].0) && c.halfedges[f2[j].0] == HalfEdge {
        twin: Some(b2[j]),
        next: Some(if j + 1 < n + 1 { f2[j + 1] } else { b2[j] }),
        vertex: Some(vs2[j]),
        face: None,
    } by {
        if j < n - 1 {
            assert(f[j] != f[n - 1]);
            assert(f2[j] == f[j] && f2[j + 1] == f[j + 1] && b2[j] == b[j] && vs2[j] == vs[j]);
        } else if j == n - 1 {
            assert(f2[j] == f[j] && f2[j + 1] == a_h && b2[j] == b[j] && vs2[j] == vs[j]);
        }
    }
    assert forall|j: int| #![trigger c.halfedges[b2[j].0]] 0 <= j < n + 1 implies c.halfedges.dom().contains(b2[j].0) && c.halfedges[b2[j].0] == HalfEdge {
        twin: Some(f2[j]),
        next: Some(if j > 0 { b2[j - 1] } else { f2[0] }),
        vertex: Some(vs2[j + 1]),
        face: None,
    } by {
        if j < n {
            assert(b[j] != f[n - 1]);
            assert(b2[j] == b[j] && f2[j] == f[j] && vs2[j + 1] == vs[j + 1] && f2[0] == f[0]);
            if j > 0 {
                assert(b2[j - 1] == b[j - 1]);
            }
        } else {
            assert(b2[j - 1] == b[n - 1]);
        }
    }
    assert(polyline_links(c.halfedges, vs2, f2, b2));
    assert forall|k: u64| #[trigger] c.vertices.dom().contains(k) <==> exists|j: int| 0 <= j < vs2.len() && vs2[j].0 == k by {
        if c.vertices.dom().contains(k) {
            if k == v.0 {
                assert(vs2[vs.len() as int].0 == k);
            } else {
                assert(m.vertices.dom().contains(k));
                let j = choose|j: int| 0 <= j < vs.len() && vs[j].0 == k;
                assert(vs2[j].0 == k);
            }
        }
        if exists|j: int| 0 <= j < vs2.len() && vs2[j].0 == k {
            let j = choose|j: int| 0 <= j < vs2.len() && vs2[j].0 == k;
            if j < vs.len() {
                assert(vs2[j] == vs[j]);
            }
        }
    }
    assert forall|k: u64| #[trigger] c.halfedges.dom().contains(k) <==> exists|j: int|
        0 <= j < f2.len() && (f2[j].0 == k || b2[j].0 == k) by {
        if c.halfedges.dom().contains(k) {
            if k == a_h.0 {
                assert(f2[n].0 == k);
            } else if k == b_h.0 {
                assert(b2[n].0 == k);
            } else {
                assert(m.halfedges.dom().contains(k));
                let j = choose|j: int| 0 <= j < f.len() && (f[j].0 == k || b[j].0 == k);
                assert(f2[j] == f[j] && b2[j] == b[j]);
            }
        }
        if exists|j: int| 0 <= j < f2.len() && (f2[j].0 == k || b2[j].0 == k) {
            let j = choose|j: int| 0 <= j < f2.len() && (f2[j].0 == k || b2[j].0 == k);
            if j < n {
                assert(f2[j] == f[j] && b2[j] == b[j]);
            }
        }
    }
    assert forall|x: int, y: int| 0 <= x < y < vs2.len() implies #[trigger] vs2[x] != #[trigger] vs2[y] by {
        if y < vs.len() {
            assert(vs2[x] == vs[x] && vs2[y] == vs[y]);
        } else {
            assert(vs2[x] == vs[x]);
        }
    }
    assert forall|x: int, y: int| 0 <= x < y < f2.len() implies #[trigger] f2[x] != #[trigger] f2[y] by {
        if y < n {
            assert(f2[x] == f[x] && f2[y] == f[y]);
        } else {
            assert(f2[x] == f[x]);
        }
    }
    assert forall|x: int, y: int| 0 <= x < y < b2.len() implies #[trigger] b2[x] != #[trigger] b2[y] by {
        if y < n {
            assert(b2[x] == b[x] && b2[y] == b[y]);
        } else {
            assert(b2[x] == b[x]);
        }
    }
    assert forall|x: int, y: int| 0 <= x < f2.len() && 0 <= y < b2.len() implies #[trigger] f2[x] != #[trigger] b2[y] by {
        if x < n && y < n {
            assert(f2[x] == f[x] && b2[y] == b[y]);
        } else if x < n {
            assert(f2[x] == f[x]);
        } else if y < n {
            assert(b2[y] == b[y]);
        }
    }
    assert(polyline_elements(c, vs2, f2, b2));
    assert(c.vertices[vs2[0].0] == Vertex { halfedge: Some(f2[0]) }) by {
        assert(vs2[0] == vs[0]);
    }
    assert forall|j: int| 1 <= j < vs2.len() implies c.vertices[(#[trigger] vs2[j]).0] == Vertex { halfedge: Some(b2[j - 1]) } by {
        if j < vs.len() {
            assert(vs2[j] == vs[j] && b2[j - 1] == b[j - 1]);
        }
    }
    assert forall|j: int| 0 <= j < vs2.len() implies after.positions.values()[(#[trigger] vs2[j]).0] == pts2[j] by {
        if j < vs.len() {
            assert(vs2[j] == vs[j]);
            assert(pts.take(i)[j] == pts2[j]);
        }
    }
    assert forall|k: u64| #[trigger] after.positions.values().dom().contains(k) <==> c.vertices.dom().contains(k) by {
        if k != v.0 {
            assert(before.positions.values().dom().contains(k) <==> m.vertices.dom().contains(k));
        }
    }
    assert(polyline_at(after, pts2, vs2, f2, b2));
    assert(m.vertices.dom().finite() && m.halfedges.dom().finite());
    assert(c.halfedges.dom() =~= m.halfedges.dom().insert(a_h.0).insert(b_h.0)) by {
        assert(m.halfedges.dom().contains(f[n - 1].0));
    }
}

/// The mesh of the polyline through `points`, built from one edge grown at
/// its tip point after point. Fails with fewer than two points.
pub fn polyline_mesh(points: &[Vec3]) -> (r: Result<HalfEdgeMesh, EditError>)
    requires
        points@.len() < 0x1000_0000,
    ensures
        points@.len() < 2 ==> r == Err::<HalfEdgeMesh, EditError>(EditError::TooFewPoints),
        points@.len() >= 2 ==> (r matches Ok(m) && m.well_formed() && m.connectivity@.links_valid()
            && is_polyline_through(m, points@)),
{
    if points.len() < 2 {
        return Err(EditError::TooFewPoints);
    }
    let mut mesh = HalfEdgeMesh::new();
    let ghost m0 = mesh;
    let (h_src, h_dst) = match crate::edit_ops::add_edge(&mut mesh, points[0], points[1]) {
        Ok(p) => p,
        Err(e) => {
            return Err(e);
        },
    };
    let ghost c = mesh.connectivity@;
    let ghost v_src = c.halfedges[h_src.0].vertex->Some_0;
    let ghost v_dst = c.halfedges[h_dst.0].vertex->Some_0;
    let mut tip: VertexId = mesh.connectivity.halfedge(h_dst).vertex.unwrap();
    let ghost mut vs: Seq<VertexId> = seq![v_src, v_dst];
    let ghost mut fs: Seq<HalfEdgeId> = seq![h_src];
    let ghost mut bs: Seq<HalfEdgeId> = seq![h_dst];
    proof {
        assert(polyline_links(c.halfedges, vs, fs, bs));
        assert forall|k: u64| #[trigger] c.vertices.dom().contains(k) <==> exists|i: int| 0 <= i < vs.len() && vs[i].0 == k by {
            if c.vertices.dom().contains(k) {
                if k == v_src.0 {
                    assert(vs[0].0 == k);
                } else {
                    assert(vs[1].0 == k);
                }
            }
        }
        assert forall|k: u64| #[trigger] c.halfedges.dom().contains(k) <==> exists|i: int|
            0 <= i < fs.len() && (fs[i].0 == k || bs[i].0 == k) by {
            if c.halfedges.dom().contains(k) {
                assert(fs[0].0 == k || bs[0].0 == k);
            }
        }
        assert(c.faces =~= Map::<u64, Face>::empty());
        assert(polyline_elements(c, vs, fs, bs));
        assert forall|k: u64| #[trigger] mesh.positions.values().dom().contains(k) <==> c.vertices.dom().contains(k) by {
            if mesh.positions.values().dom().contains(k) {
                assert(!m0.positions.values().dom().contains(k));
            }
        }
        assert(polyline_at(mesh, points@.take(2), vs, fs, bs));
        assert(c.vertices.dom().len() == 2) by {
            assert(c.vertices.dom() =~= Set::<u64>::empty().insert(v_src.0).insert(v_dst.0));
        }
        assert(c.halfedges.dom().len() == 2) by {
            assert(c.halfedges.dom() =~= Set::<u64>::empty().insert(h_src.0).insert(h_dst.0));
        }
    }
    let mut i: usize = 2;
    while i < points.len()
        invariant
            2 <= i <= points@.len(),
            points@.len() < 0x1000_0000,
            mesh.well_formed(),
            mesh.connectivity@.links_valid(),
            polyline_at(mesh, points@.take(i as int), vs, fs, bs),
            tip == vs.last(),
            mesh.connectivity@.vertices.dom().len() == i,
            mesh.connectivity@.halfedges.dom().len() == 2 * (i - 1),
            mesh.connectivity@.faces.dom().len() == 0,
        decreases points@.len() - i,
    {
        let ghost before = mesh;
        let ghost m = mesh.connectivity@;
        proof {
            lemma_tip_fan(m, vs, fs, bs);
            assert(m.vertices[tip.0].halfedge == Some(bs.last()));
            assert(outgoing_of(m, tip) == Ok::<Seq<HalfEdgeId>, TraversalError>(seq![bs.last()]));
            assert(chain_tip(m, tip) == Ok::<(HalfEdgeId, HalfEdgeId), EditError>((fs.last(), bs.last())));
        }
        let v = match add_edge_chain(&mut mesh, tip, points[i]) {
            Ok(v) => v,
            Err(e) => {
                return Err(e);
            },
        };
        proof {
            let (a_h, b_h) = choose|a_h: HalfEdgeId, b_h: HalfEdgeId| #[trigger] chain_extended(before, mesh, tip, points@[i as int], fs.last(), bs.last(), v, a_h, b_h);
            lemma_polyline_grows(before, mesh, points@, i as int, vs, fs, bs, v, a_h, b_h);
            vs = vs.push(v);
            fs = fs.push(a_h);
            bs = bs.push(b_h);
        }
        tip = v;
        i += 1;
    }
    assert(points@.take(points@.len() as int) =~= points@);
    Ok(mesh)
}

} // verus!
