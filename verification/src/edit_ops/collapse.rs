//! Collapsing an edge: its two ends become one vertex.
use vstd::prelude::*;

use crate::edit_ops::{prev_of, src_dst, with_next, with_twin, with_vertex};
use crate::halfedge::{
    closes_within, cycle_len, walk_cycles, walk_outcome, walk_terminates, Face, FaceId, HalfEdge, HalfEdgeId, MeshConnectivity,
    MeshView, Vertex, VertexId, WalkKind,
};
use crate::traversals::{AnyTraversal, TraversalError, VertexTraversalHelpers};

verus! {

/// `m` with the vertex of each half-edge of `hs` set to `v`, in order.
pub open spec fn vertices_set(m: Map<u64, HalfEdge>, hs: Seq<HalfEdgeId>, v: Option<VertexId>) -> Map<u64, HalfEdge>
    decreases hs.len(),
{
    if hs.len() == 0 {
        m
    } else {
        let p = vertices_set(m, hs.drop_last(), v);
        p.insert(hs.last().0, with_vertex(p[hs.last().0], v))
    }
}

/// `fs` with face `f` pointed to `y` where it pointed to `x`.
pub open spec fn face_fix(fs: Map<u64, Face>, f: Option<FaceId>, x: HalfEdgeId, y: HalfEdgeId) -> Map<u64, Face> {
    match f {
        Some(f) => if fs[f.0].halfedge == Some(x) {
            fs.insert(f.0, Face { halfedge: Some(y) })
        } else {
            fs
        },
        None => fs,
    }
}

/// `vs` with vertex `x` pointed to `to` where it pointed to `from`.
pub open spec fn vertex_fix(vs: Map<u64, Vertex>, x: VertexId, from: HalfEdgeId, to: HalfEdgeId) -> Map<u64, Vertex> {
    if vs[x.0].halfedge == Some(from) {
        vs.insert(x.0, Vertex { halfedge: Some(to) })
    } else {
        vs
    }
}

/// A collapsed triangle `prev -> next` of face `f` becomes a single edge:
/// the twins of `prev` and `next` become each other's twins, and `prev`,
/// `next` and the face go. Fails where `prev` or `next` has no twin.
pub open spec fn triangle_out(m: MeshView, prev: HalfEdgeId, next: HalfEdgeId, f: Option<FaceId>) -> Result<MeshView, TraversalError> {
    match m.halfedges[prev.0].twin {
        None => Err(TraversalError::HalfEdgeHasNoTwin(prev)),
        Some(pt) => match m.halfedges[next.0].twin {
            None => Err(TraversalError::HalfEdgeHasNoTwin(next)),
            Some(nt) => {
                let hs1 = m.halfedges.insert(pt.0, with_twin(m.halfedges[pt.0], Some(nt)));
                let hs2 = hs1.insert(nt.0, with_twin(hs1[nt.0], Some(pt)));
                Ok(MeshView {
                    vertices: m.vertices,
                    faces: match f {
                        Some(f) => m.faces.remove(f.0),
                        None => m.faces,
                    },
                    halfedges: hs2.remove(prev.0).remove(next.0),
                })
            },
        },
    }
}

/// Collapsing the triangle `prev -> next` reads and writes only half-edges
/// that exist.
pub open spec fn triangle_safe(m: MeshView, prev: HalfEdgeId, next: HalfEdgeId) -> bool {
    &&& m.halfedges.dom().contains(prev.0)
    &&& (m.halfedges[prev.0].twin matches Some(pt) ==> {
        &&& m.halfedges.dom().contains(next.0)
        &&& (m.halfedges[next.0].twin matches Some(nt) ==> m.halfedges.dom().contains(pt.0) && m.halfedges.dom().contains(nt.0))
    })
}

/// What `collapse_edge` on `h` gives in `m`, and the mesh it leaves, in
/// order: the lookups that fail leave the mesh as it was; then `w`'s
/// outgoing half-edges start at `v`, the two loops skip `h` and its twin,
/// the faces that pointed to them are moved on (failing where a face has no
/// half-edge), `h`, its twin and `w` go, each side that was a triangle
/// becomes a single edge, and the vertices that pointed to removed
/// half-edges are moved on.
///
/// The third component says whether every element the operation reads or
/// writes on the way exists.
pub open spec fn collapse_outcome(m: MeshView, h: HalfEdgeId) -> (Result<VertexId, TraversalError>, MeshView, bool) {
    match src_dst(m, h) {
        Err(e) => (Err(e), m, true),
        Ok((v, w)) => match m.halfedges[h.0].twin {
            None => (Err(TraversalError::HalfEdgeHasNoTwin(h)), m, true),
            Some(t) => match m.halfedges[t.0].next {
                None => (Err(TraversalError::HalfEdgeHasNoNext(t)), m, true),
                Some(tn) => {
                    let hn = m.halfedges[h.0].next->Some_0;
                    let hp = prev_of(m, h);
                    let tp = prev_of(m, t);
                    let w_out = match m.vertices[w.0].halfedge {
                        Some(hw) => walk_outcome(m, WalkKind::Fan, hw.0),
                        None => Ok(Seq::empty()),
                    };
                    match w_out {
                        Err(e) => (Err(e), m, true),
                        Ok(w_out) => {
                            let f_h = m.halfedges[h.0].face;
                            let f_t = m.halfedges[t.0].face;
                            let tri_h = f_h is Some && cycle_len(m, WalkKind::Next, h.0) == 3;
                            let tri_t = f_t is Some && cycle_len(m, WalkKind::Next, t.0) == 3;
                            let hs0 = vertices_set(m.halfedges, w_out, Some(v));
                            let hs1 = hs0.insert(tp.0, with_next(hs0[tp.0], Some(tn)));
                            let hs2 = hs1.insert(hp.0, with_next(hs1[hp.0], Some(hn)));
                            let ma = MeshView { vertices: m.vertices, faces: m.faces, halfedges: hs2 };
                            if f_h matches Some(f) && m.faces[f.0].halfedge is None {
                                (Err(TraversalError::FaceHasNoHalfedge(f_h->Some_0)), ma, true)
                            } else {
                                let fs1 = face_fix(m.faces, f_h, h, hn);
                                if f_t matches Some(f) && fs1[f.0].halfedge is None {
                                    (Err(TraversalError::FaceHasNoHalfedge(f_t->Some_0)), MeshView { faces: fs1, ..ma }, true)
                                } else {
                                    let fs2 = face_fix(fs1, f_t, t, tn);
                                    let mc = MeshView {
                                        vertices: m.vertices.remove(w.0),
                                        faces: fs2,
                                        halfedges: hs2.remove(t.0).remove(h.0),
                                    };
                                    let rd = if tri_h {
                                        triangle_out(mc, hp, hn, f_h)
                                    } else {
                                        Ok(mc)
                                    };
                                    match rd {
                                        Err(e) => (Err(e), mc, !tri_h || triangle_safe(mc, hp, hn)),
                                        Ok(md) => {
                                            let re = if tri_t {
                                                triangle_out(md, tp, tn, f_t)
                                            } else {
                                                Ok(md)
                                            };
                                            match re {
                                                Err(e) => (Err(e), md, (!tri_h || triangle_safe(mc, hp, hn)) && (!tri_t || triangle_safe(md, tp, tn))),
                                                Ok(me) => {
                                                    let safe_de = (!tri_h || triangle_safe(mc, hp, hn)) && (!tri_t || triangle_safe(md, tp, tn));
                                                    let pt_h = mc.halfedges[hp.0].twin->Some_0;
                                                    let nt_h = mc.halfedges[hn.0].twin->Some_0;
                                                    let pt_t = md.halfedges[tp.0].twin->Some_0;
                                                    let nt_t = md.halfedges[tn.0].twin->Some_0;
                                                    let vs1 = vertex_fix(me.vertices, v, h, if tri_h { pt_h } else { hn });
                                                    if tri_h && me.halfedges[nt_h.0].vertex is None {
                                                        (Err(TraversalError::HalfEdgeHasNoVertex(nt_h)), MeshView { vertices: vs1, ..me }, safe_de && me.vertices.dom().contains(v.0) && me.halfedges.dom().contains(nt_h.0))
                                                    } else {
                                                        let vs2 = if tri_h {
                                                            vertex_fix(vs1, me.halfedges[nt_h.0].vertex->Some_0, hp, nt_h)
                                                        } else {
                                                            vs1
                                                        };
                                                        if tri_t && me.halfedges[nt_t.0].vertex is None {
                                                            (Err(TraversalError::HalfEdgeHasNoVertex(nt_t)), MeshView { vertices: vs2, ..me }, safe_de && me.vertices.dom().contains(v.0)
                                                                && (tri_h ==> me.halfedges.dom().contains(nt_h.0) && me.vertices.dom().contains(me.halfedges[nt_h.0].vertex->Some_0.0))
                                                                && me.halfedges.dom().contains(nt_t.0))
                                                        } else {
                                                            let vs4 = if tri_t {
                                                                vertex_fix(
                                                                    vertex_fix(vs2, me.halfedges[nt_t.0].vertex->Some_0, tp, nt_t),
                                                                    v,
                                                                    tn,
                                                                    pt_t,
                                                                )
                                                            } else {
                                                                vs2
                                                            };
                                                            (Ok(v), MeshView { vertices: vs4, ..me }, safe_de && me.vertices.dom().contains(v.0)
                                                                && (tri_h ==> me.halfedges.dom().contains(nt_h.0) && me.vertices.dom().contains(me.halfedges[nt_h.0].vertex->Some_0.0))
                                                                && (tri_t ==> me.halfedges.dom().contains(nt_t.0) && me.vertices.dom().contains(me.halfedges[nt_t.0].vertex->Some_0.0)))
                                                        }
                                                    }
                                                },
                                            }
                                        },
                                    }
                                }
                            }
                        },
                    }
                },
            },
        },
    }
}

/// The walks `collapse_edge` on `h` follows end: the loops of both sides,
/// and the fan of `w`.
pub open spec fn collapse_ready(m: MeshView, h: HalfEdgeId) -> bool {
    match (src_dst(m, h), m.halfedges[h.0].twin) {
        (Ok((v, w)), Some(t)) => m.halfedges[t.0].next is Some ==> {
            &&& walk_cycles(m, WalkKind::Next, h.0)
            &&& walk_cycles(m, WalkKind::Next, t.0)
            &&& (m.vertices[w.0].halfedge matches Some(hw) ==> walk_terminates(m, WalkKind::Fan, hw.0))
        },
        _ => true,
    }
}

proof fn lemma_vertices_set_dom(m: Map<u64, HalfEdge>, hs: Seq<HalfEdgeId>, v: Option<VertexId>)
    requires
        forall|i: int| 0 <= i < hs.len() ==> m.dom().contains(#[trigger] hs[i].0),
    ensures
        vertices_set(m, hs, v).dom() == m.dom(),
    decreases hs.len(),
{
    if hs.len() > 0 {
        lemma_vertices_set_dom(m, hs.drop_last(), v);
        assert(vertices_set(m, hs, v).dom() =~= m.dom());
    }
}

/// The walks `collapse_edge` on `h` follows come back, within as many steps
/// as the mesh has half-edges: the loops of both sides without failing, and
/// the fan of `w`.
pub open spec fn collapse_within(m: MeshView, h: HalfEdgeId) -> bool {
    let lim = m.halfedges.dom().len();
    match (src_dst(m, h), m.halfedges[h.0].twin) {
        (Ok((v, w)), Some(t)) => m.halfedges[t.0].next is Some ==> {
            &&& closes_within(m, WalkKind::Next, h.0, lim)
            &&& walk_outcome(m, WalkKind::Next, h.0) is Ok
            &&& closes_within(m, WalkKind::Next, t.0, lim)
            &&& walk_outcome(m, WalkKind::Next, t.0) is Ok
            &&& (m.vertices[w.0].halfedge matches Some(hw) ==> closes_within(m, WalkKind::Fan, hw.0, lim))
        },
        _ => true,
    }
}

/// `collapse_edge` on `h` runs to its end: its walks come back and every
/// element it reads or writes on the way exists.
pub open spec fn collapse_checked(m: MeshView, h: HalfEdgeId) -> bool {
    collapse_within(m, h) && collapse_outcome(m, h).2
}

/// The errors with which `collapse_edge` refuses a mesh it cannot collapse
/// safely: a walk that does not come back, or a missing element.
pub open spec fn is_refusal(e: TraversalError) -> bool {
    ||| e is HalfedgeBadLoop
    ||| e is MissingHalfEdge
    ||| e is MissingVertex
    ||| e is FaceBadLoop
}

/// A walk that fails does so on a missing `next` or twin, never with a
/// refusal.
proof fn lemma_walk_error_plain(m: MeshView, kind: WalkKind, h0: u64, n: nat)
    ensures
        crate::halfedge::walk(m, kind, h0, n) matches Err(e) ==> !is_refusal(e),
    decreases n,
{
    if n > 0 {
        lemma_walk_error_plain(m, kind, h0, (n - 1) as nat);
    }
}

/// A walk that comes back to its start has a first return.
proof fn lemma_first_return(m: MeshView, kind: WalkKind, h0: u64, k: nat)
    requires
        k >= 1,
        crate::halfedge::walk(m, kind, h0, k) == Ok::<u64, TraversalError>(h0),
    ensures
        exists|n: nat| crate::halfedge::walk_returns_at(m, kind, h0, n),
    decreases k,
{
    if exists|j: int| 1 <= j < k && #[trigger] crate::halfedge::walk(m, kind, h0, j as nat) == Ok::<u64, TraversalError>(h0) {
        let j = choose|j: int| 1 <= j < k && #[trigger] crate::halfedge::walk(m, kind, h0, j as nat) == Ok::<u64, TraversalError>(h0);
        lemma_first_return(m, kind, h0, j as nat);
    } else {
        assert(crate::halfedge::walk_returns_at(m, kind, h0, k));
    }
}

/// The error of a walk that ends without coming back is no refusal.
pub proof fn lemma_outcome_error_plain(m: MeshView, kind: WalkKind, h0: u64)
    requires
        walk_terminates(m, kind, h0),
        walk_outcome(m, kind, h0) is Err,
    ensures
        !is_refusal(walk_outcome(m, kind, h0)->Err_0),
{
    let k = choose|k: nat| #[trigger] crate::halfedge::walk_closes(m, kind, h0, k);
    assert(crate::halfedge::walk_closes(m, kind, h0, k));
    if crate::halfedge::walk(m, kind, h0, k) == Ok::<u64, TraversalError>(h0) {
        lemma_first_return(m, kind, h0, k);
    } else {
        assert(crate::halfedge::walk(m, kind, h0, k) is Err);
        let n0 = choose|n: nat| #[trigger] crate::halfedge::walk(m, kind, h0, n) is Err;
        lemma_walk_error_plain(m, kind, h0, n0);
    }
}

/// Whether collapsing the triangle `prev -> next` reads only half-edges
/// that exist.
fn triangle_check(mesh: &MeshConnectivity, prev: HalfEdgeId, next: HalfEdgeId) -> (r: bool)
    requires
        mesh.well_formed(),
    ensures
        r == triangle_safe(mesh@, prev, next),
{
    if !mesh.contains_halfedge(prev) {
        return false;
    }
    match mesh.halfedge(prev).twin {
        None => true,
        Some(pt) => {
            if !mesh.contains_halfedge(next) {
                return false;
            }
            match mesh.halfedge(next).twin {
                None => true,
                Some(nt) => mesh.contains_halfedge(pt) && mesh.contains_halfedge(nt),
            }
        },
    }
}

/// Turns the collapsed triangle `prev -> next` of face `f` into a single
/// edge, and gives the twins of `prev` and `next`.
fn collapse_triangle(mesh: &mut MeshConnectivity, prev: HalfEdgeId, next: HalfEdgeId, f: Option<FaceId>) -> (r: Result<(HalfEdgeId, HalfEdgeId), TraversalError>)
    requires
        old(mesh).well_formed(),
        triangle_safe(old(mesh)@, prev, next),
        f matches Some(x) ==> crate::halfedge::key_norm(x.0) == x.0,
    ensures
        final(mesh).well_formed(),
        match triangle_out(old(mesh)@, prev, next, f) {
            Err(e) => r == Err::<(HalfEdgeId, HalfEdgeId), TraversalError>(e) && final(mesh)@ == old(mesh)@,
            Ok(m2) => r == Ok::<(HalfEdgeId, HalfEdgeId), TraversalError>(
                (old(mesh)@.halfedges[prev.0].twin->Some_0, old(mesh)@.halfedges[next.0].twin->Some_0),
            ) && final(mesh)@ == m2,
        },
{
    let ghost m = mesh@;
    let pt = match mesh.halfedge(prev).twin {
        Some(x) => x,
        None => {
            return Err(TraversalError::HalfEdgeHasNoTwin(prev));
        },
    };
    let nt = match mesh.halfedge(next).twin {
        Some(x) => x,
        None => {
            return Err(TraversalError::HalfEdgeHasNoTwin(next));
        },
    };
    mesh.set_twin(pt, Some(nt));
    mesh.set_twin(nt, Some(pt));
    proof {
        assert(crate::halfedge::key_norm(prev.0) == prev.0);
        assert(crate::halfedge::key_norm(next.0) == next.0);
    }
    mesh.remove_halfedge(prev);
    mesh.remove_halfedge(next);
    match f {
        Some(x) => {
            mesh.remove_face(x);
        },
        None => {},
    }
    Ok((pt, nt))
}

/// Merges the two ends of the edge of `h`, `v` and `w`, into `v`. The edge
/// and `w` go; a face on either side that was a triangle becomes a single
/// edge. Gives `v`.
pub fn collapse_edge(mesh: &mut MeshConnectivity, h: HalfEdgeId) -> (r: Result<VertexId, TraversalError>)
    requires
        old(mesh).well_formed(),
        old(mesh)@.links_valid(),
        old(mesh)@.has_halfedge(h),
    ensures
        final(mesh).well_formed(),
        (r matches Err(e) && is_refusal(e)) ==> !collapse_checked(old(mesh)@, h),
        !(r matches Err(e) && is_refusal(e)) ==> r == collapse_outcome(old(mesh)@, h).0 && final(mesh)@ == collapse_outcome(
            old(mesh)@,
            h,
        ).1,
{
    let ghost m = mesh@;
    proof {
        assert(m.halfedge_links_ok(m.halfedges[h.0]));
    }
    let he = mesh.halfedge(h);
    let v = match he.vertex {
        Some(v) => v,
        None => {
            return Err(TraversalError::HalfEdgeHasNoVertex(h));
        },
    };
    let hn = match he.next {
        Some(n) => n,
        None => {
            return Err(TraversalError::HalfEdgeHasNoNext(h));
        },
    };
    proof {
        assert(m.halfedge_links_ok(m.halfedges[hn.0]));
    }
    let w = match mesh.halfedge(hn).vertex {
        Some(w) => w,
        None => {
            return Err(TraversalError::HalfEdgeHasNoVertex(hn));
        },
    };
    let t = match he.twin {
        Some(t) => t,
        None => {
            return Err(TraversalError::HalfEdgeHasNoTwin(h));
        },
    };
    proof {
        assert(m.halfedge_links_ok(m.halfedges[t.0]));
    }
    let te = mesh.halfedge(t);
    let tn = match te.next {
        Some(n) => n,
        None => {
            return Err(TraversalError::HalfEdgeHasNoNext(t));
        },
    };
    let lim = mesh.num_halfedges();
    if !mesh.walk_closes_within(WalkKind::Next, h, lim) {
        return Err(TraversalError::HalfedgeBadLoop(h));
    }
    if !mesh.walk_closes_within(WalkKind::Next, t, lim) {
        return Err(TraversalError::HalfedgeBadLoop(t));
    }
    proof {
        let k1 = choose|k: nat| 1 <= k <= lim && #[trigger] crate::halfedge::walk_closes(m, WalkKind::Next, h.0, k);
        let k2 = choose|k: nat| 1 <= k <= lim && #[trigger] crate::halfedge::walk_closes(m, WalkKind::Next, t.0, k);
        assert(crate::halfedge::walk_closes(m, WalkKind::Next, h.0, k1));
        assert(crate::halfedge::walk_closes(m, WalkKind::Next, t.0, k2));
    }
    match mesh.walk_cycle(WalkKind::Next, h) {
        Err(_) => {
            return Err(TraversalError::HalfedgeBadLoop(h));
        },
        Ok(c) => {
            assert(crate::halfedge::walk(m, WalkKind::Next, h.0, c@.len()) == Ok::<u64, TraversalError>(h.0));
        },
    }
    match mesh.walk_cycle(WalkKind::Next, t) {
        Err(_) => {
            return Err(TraversalError::HalfedgeBadLoop(t));
        },
        Ok(c) => {
            assert(crate::halfedge::walk(m, WalkKind::Next, t.0, c@.len()) == Ok::<u64, TraversalError>(t.0));
        },
    }
    match mesh.vertex(w).halfedge {
        Some(hw) => {
            if !mesh.walk_closes_within(WalkKind::Fan, hw, lim) {
                return Err(TraversalError::HalfedgeBadLoop(hw));
            }
            proof {
                let k3 = choose|k: nat| 1 <= k <= lim && #[trigger] crate::halfedge::walk_closes(m, WalkKind::Fan, hw.0, k);
                assert(crate::halfedge::walk_closes(m, WalkKind::Fan, hw.0, k3));
            }
        },
        None => {},
    }
    let h_loop = mesh.halfedge_loop(h);
    let hp = h_loop[h_loop.len() - 1];
    let t_loop = mesh.halfedge_loop(t);
    let tp = t_loop[t_loop.len() - 1];
    proof {
        crate::halfedge::lemma_walk_in_dom(m, WalkKind::Next, h.0, (h_loop@.len() - 1) as nat);
        crate::halfedge::lemma_walk_in_dom(m, WalkKind::Next, t.0, (t_loop@.len() - 1) as nat);
        assert(m.has_vertex(w));
    }
    let tw = mesh.at_vertex(w);
    let w_out = match tw.outgoing_halfedges() {
        Ok(o) => o,
        Err(e) => {
            proof {
                if let Some(hw) = m.vertices[w.0].halfedge {
                    let k3 = choose|k: nat| 1 <= k <= lim && #[trigger] crate::halfedge::walk_closes(m, WalkKind::Fan, hw.0, k);
                    assert(crate::halfedge::walk_closes(m, WalkKind::Fan, hw.0, k3));
                    lemma_outcome_error_plain(m, WalkKind::Fan, hw.0);
                }
            }
            return Err(e);
        },
    };
    let f_h = he.face;
    let f_t = te.face;
    let tri_h = f_h.is_some() && h_loop.len() == 3;
    let tri_t = f_t.is_some() && t_loop.len() == 3;
    proof {
        assert(h_loop@.len() == cycle_len(m, WalkKind::Next, h.0));
        assert(t_loop@.len() == cycle_len(m, WalkKind::Next, t.0));
    }

    // --- Adjust connectivity ---
    let ghost hs = w_out@;
    let mut i: usize = 0;
    while i < w_out.len()
        invariant
            mesh.well_formed(),
            hs == w_out@,
            i <= hs.len(),
            forall|j: int| 0 <= j < hs.len() ==> m.halfedges.dom().contains(#[trigger] hs[j].0),
            mesh@.halfedges == vertices_set(m.halfedges, hs.take(i as int), Some(v)),
            mesh@.vertices == m.vertices,
            mesh@.faces == m.faces,
        decreases hs.len() - i,
    {
        proof {
            lemma_vertices_set_dom(m.halfedges, hs.take(i as int), Some(v));
            assert(hs.take(i + 1).drop_last() =~= hs.take(i as int));
            assert(hs.take(i + 1).last() == hs[i as int]);
        }
        mesh.set_halfedge_vertex(w_out[i], Some(v));
        i += 1;
    }
    assert(hs.take(hs.len() as int) =~= hs);
    proof {
        lemma_vertices_set_dom(m.halfedges, hs, Some(v));
    }
    mesh.set_next(tp, Some(tn));
    mesh.set_next(hp, Some(hn));

    // Some face may point to the halfedges we're deleting. Fix that.
    match f_h {
        Some(f) => {
            assert(m.has_face(f));
            match mesh.face(f).halfedge {
                None => {
                    return Err(TraversalError::FaceHasNoHalfedge(f));
                },
                Some(x) => {
                    if x == h {
                        mesh.set_face(f, Face { halfedge: Some(hn) });
                    }
                },
            }
        },
        None => {},
    }
    match f_t {
        Some(f) => {
            assert(m.has_face(f));
            match mesh.face(f).halfedge {
                None => {
                    return Err(TraversalError::FaceHasNoHalfedge(f));
                },
                Some(x) => {
                    if x == t {
                        mesh.set_face(f, Face { halfedge: Some(tn) });
                    }
                },
            }
        },
        None => {},
    }

    // --- Remove data ---
    proof {
        assert(crate::halfedge::key_norm(h.0) == h.0);
        assert(crate::halfedge::key_norm(t.0) == t.0);
        assert(crate::halfedge::key_norm(w.0) == w.0);
    }
    mesh.remove_halfedge(t);
    mesh.remove_halfedge(h);
    mesh.remove_vertex(w);

    // --- Triangular faces become single edges ---
    proof {
        if let Some(f) = f_h {
            assert(m.has_face(f));
        }
        if let Some(f) = f_t {
            assert(m.has_face(f));
        }
    }
    let pair_h = if tri_h {
        if !triangle_check(mesh, hp, hn) {
            return Err(TraversalError::MissingHalfEdge(hp));
        }
        match collapse_triangle(mesh, hp, hn, f_h) {
            Ok(p) => Some(p),
            Err(e) => {
                return Err(e);
            },
        }
    } else {
        None
    };
    let pair_t = if tri_t {
        if !triangle_check(mesh, tp, tn) {
            return Err(TraversalError::MissingHalfEdge(tp));
        }
        match collapse_triangle(mesh, tp, tn, f_t) {
            Ok(p) => Some(p),
            Err(e) => {
                return Err(e);
            },
        }
    } else {
        None
    };

    // --- Vertices that pointed to removed half-edges ---
    if !mesh.contains_vertex(v) {
        return Err(TraversalError::MissingVertex(v));
    }
    if mesh.vertex(v).halfedge == Some(h) {
        match pair_h {
            Some((h_v_x, _)) => {
                mesh.set_vertex(v, Vertex { halfedge: Some(h_v_x) });
            },
            None => {
                mesh.set_vertex(v, Vertex { halfedge: Some(hn) });
            },
        }
    }
    match pair_h {
        Some((_, h_x_w)) => {
            if !mesh.contains_halfedge(h_x_w) {
                return Err(TraversalError::MissingHalfEdge(h_x_w));
            }
            let x = match mesh.halfedge(h_x_w).vertex {
                Some(x) => x,
                None => {
                    return Err(TraversalError::HalfEdgeHasNoVertex(h_x_w));
                },
            };
            if !mesh.contains_vertex(x) {
                return Err(TraversalError::MissingVertex(x));
            }
            if mesh.vertex(x).halfedge == Some(hp) {
                mesh.set_vertex(x, Vertex { halfedge: Some(h_x_w) });
            }
        },
        None => {},
    }
    match pair_t {
        Some((h_v_y, h_y_v)) => {
            if !mesh.contains_halfedge(h_y_v) {
                return Err(TraversalError::MissingHalfEdge(h_y_v));
            }
            let y = match mesh.halfedge(h_y_v).vertex {
                Some(y) => y,
                None => {
                    return Err(TraversalError::HalfEdgeHasNoVertex(h_y_v));
                },
            };
            if !mesh.contains_vertex(y) {
                return Err(TraversalError::MissingVertex(y));
            }
            if mesh.vertex(y).halfedge == Some(tp) {
                mesh.set_vertex(y, Vertex { halfedge: Some(h_y_v) });
            }
            if mesh.vertex(v).halfedge == Some(tn) {
                mesh.set_vertex(v, Vertex { halfedge: Some(h_v_y) });
            }
        },
        None => {},
    }
    Ok(v)
}

/// A successful collapse of the edge `v -> w` of `h` keeps `v`, which it
/// returns, and removes `w`, so the mesh has one vertex fewer; `h` and its
/// twin are gone.
pub proof fn lemma_collapse_removes(m: MeshView, h: HalfEdgeId)
    requires
        m.well_formed(),
        m.links_valid(),
        m.has_halfedge(h),
        collapse_outcome(m, h).2,
        collapse_outcome(m, h).0 is Ok,
    ensures
        src_dst(m, h) matches Ok((v, w)) && m.halfedges[h.0].twin matches Some(t) && {
            let m2 = collapse_outcome(m, h).1;
            &&& collapse_outcome(m, h).0 == Ok::<VertexId, TraversalError>(v)
            &&& v != w
            &&& m.vertices.dom().contains(w.0)
            &&& m2.vertices.dom() == m.vertices.dom().remove(w.0)
            &&& m2.vertices.dom().len() + 1 == m.vertices.dom().len()
            &&& !m2.halfedges.dom().contains(h.0)
            &&& !m2.halfedges.dom().contains(t.0)
        },
{
    let (v, w) = src_dst(m, h)->Ok_0;
    let hn = m.halfedges[h.0].next->Some_0;
    assert(m.halfedge_links_ok(m.halfedges[h.0]));
    assert(m.halfedge_links_ok(m.halfedges[hn.0]));
    assert(m.vertices.dom().contains(w.0));
    let m2 = collapse_outcome(m, h).1;
    assert(m2.vertices.dom() =~= m.vertices.dom().remove(w.0));
    assert(m.vertices.dom().finite());
}

} // verus!
