//! Dissolving a vertex: the faces around it become one face.
use vstd::prelude::*;

use crate::edit_ops::{faces_set, prev_of, with_next, EditError};
use crate::edit_ops::collapse::{is_refusal, lemma_outcome_error_plain};
use crate::halfedge::{lemma_loop_ok_cycles, loop_check, loop_ok};
use crate::halfedge::{
    closes_within, cycle_seq, walk_cycles, walk_outcome, walk_terminates, Face, FaceId, HalfEdgeId, MeshConnectivity, MeshView,
    Vertex, VertexId, WalkKind,
};
use crate::traversals::{TraversalError, VertexTraversalHelpers};

verus! {

/// What `dissolve_vertex` has done after handling the first `i` outgoing
/// half-edges `outs`, starting from `m`: the result so far, the mesh, the
/// elements left to delete, and whether every element read or written on
/// the way existed. For each outgoing `h` with twin `tw`, the half-edge
/// before `tw` now skips to the half-edge after `h`, and the vertex at the
/// other end of `h` moves off `tw`.
pub open spec fn dv_fold(m: MeshView, outs: Seq<HalfEdgeId>, i: int) -> (
    Result<(), TraversalError>,
    MeshView,
    Seq<(HalfEdgeId, HalfEdgeId, FaceId)>,
    bool,
)
    decreases i,
{
    if i <= 0 {
        (Ok(()), m, Seq::empty(), true)
    } else {
        let (r, s, del, safe) = dv_fold(m, outs, i - 1);
        if r is Err {
            (r, s, del, safe)
        } else {
            let h = outs[i - 1];
            let safe1 = safe && s.halfedges.dom().contains(h.0);
            match s.halfedges[h.0].twin {
                None => (Err(TraversalError::HalfEdgeHasNoTwin(h)), s, del, safe1),
                Some(tw) => {
                    let safe2 = safe1 && s.halfedges.dom().contains(tw.0);
                    match s.halfedges[tw.0].vertex {
                        None => (Err(TraversalError::HalfEdgeHasNoVertex(tw)), s, del, safe2),
                        Some(w) => match s.halfedges[h.0].next {
                            None => (Err(TraversalError::HalfEdgeHasNoNext(h)), s, del, safe2),
                            Some(nxt) => {
                                let safe3 = safe2 && loop_ok(s, tw.0);
                                let prv = prev_of(s, tw);
                                match s.halfedges[h.0].face {
                                    None => (Err(TraversalError::HalfEdgeHasNoFace(h)), s, del, safe3),
                                    Some(f) => {
                                        let safe4 = safe3 && s.halfedges.dom().contains(prv.0) && s.vertices.dom().contains(w.0)
                                            && s.faces.dom().contains(f.0);
                                        let hs = s.halfedges.insert(prv.0, with_next(s.halfedges[prv.0], Some(nxt)));
                                        let vs = if s.vertices[w.0].halfedge == Some(tw) {
                                            s.vertices.insert(w.0, Vertex { halfedge: Some(nxt) })
                                        } else {
                                            s.vertices
                                        };
                                        (
                                            Ok(()),
                                            MeshView { vertices: vs, faces: s.faces, halfedges: hs },
                                            del.push((tw, h, f)),
                                            safe4,
                                        )
                                    },
                                }
                            },
                        },
                    }
                },
            }
        }
    }
}

/// `s` with the first `n` triples `(tw, h, f)` of `del` removed, in order.
pub open spec fn remove_triples(s: MeshView, del: Seq<(HalfEdgeId, HalfEdgeId, FaceId)>, n: int) -> MeshView
    decreases n,
{
    if n <= 0 {
        s
    } else {
        let p = remove_triples(s, del, n - 1);
        let (tw, h, f) = del[n - 1];
        MeshView { vertices: p.vertices, faces: p.faces.remove(f.0), halfedges: p.halfedges.remove(tw.0).remove(h.0) }
    }
}

/// Removing half-edges and faces leaves the vertices as they were.
pub proof fn lemma_remove_triples_vertices(s: MeshView, del: Seq<(HalfEdgeId, HalfEdgeId, FaceId)>, n: int)
    ensures
        remove_triples(s, del, n).vertices == s.vertices,
    decreases n,
{
    if n > 0 {
        lemma_remove_triples_vertices(s, del, n - 1);
    }
}

/// A vertex that is dissolved is gone from the mesh left behind.
pub proof fn lemma_dissolve_removes_vertex(m: MeshView, v: VertexId, nf: FaceId)
    requires
        dissolve_outcome(m, v, nf).0 is Ok,
    ensures
        !dissolve_outcome(m, v, nf).1.has_vertex(v),
{
    if let Ok(outs) = outgoing_of(m, v) {
        if outs.len() > 0 {
            let m0 = MeshView { vertices: m.vertices, faces: m.faces.insert(nf.0, Face { halfedge: None }), halfedges: m.halfedges };
            let (r, s, del, safe) = dv_fold(m0, outs, outs.len() as int);
            if r is Ok {
                if let Some(n0) = s.halfedges[outs[0].0].next {
                    let lp = cycle_seq(s, WalkKind::Next, n0.0);
                    let s2 = MeshView {
                        vertices: s.vertices.remove(v.0),
                        faces: s.faces.insert(nf.0, Face { halfedge: Some(n0) }),
                        halfedges: faces_set(s.halfedges, lp, Some(nf)),
                    };
                    lemma_remove_triples_vertices(s2, del, del.len() as int);
                }
            }
        }
    }
}

/// The outgoing half-edges of `v` in `m`.
pub open spec fn outgoing_of(m: MeshView, v: VertexId) -> Result<Seq<HalfEdgeId>, TraversalError> {
    match m.vertices[v.0].halfedge {
        Some(h0) => walk_outcome(m, WalkKind::Fan, h0.0),
        None => Ok(Seq::empty()),
    }
}

/// What `dissolve_vertex` on `v` gives in `m`, with `nf` the face it makes,
/// and the mesh it leaves; the third component says whether every element
/// read or written on the way existed. The loops around `v` are joined
/// into one loop that becomes the face `nf`; `v`, its edges and its faces
/// go.
pub open spec fn dissolve_outcome(m: MeshView, v: VertexId, nf: FaceId) -> (Result<FaceId, EditError>, MeshView, bool) {
    match outgoing_of(m, v) {
        Err(e) => (Err(EditError::Traversal(e)), m, true),
        Ok(outs) => if outs.len() == 0 {
            (Err(EditError::VertexNotInFace(v)), m, true)
        } else {
            let m0 = MeshView { vertices: m.vertices, faces: m.faces.insert(nf.0, Face { halfedge: None }), halfedges: m.halfedges };
            let (r, s, del, safe) = dv_fold(m0, outs, outs.len() as int);
            match r {
                Err(e) => (Err(EditError::Traversal(e)), s, safe),
                Ok(_) => match s.halfedges[outs[0].0].next {
                    None => (Err(EditError::Traversal(TraversalError::HalfEdgeHasNoNext(outs[0]))), s, safe),
                    Some(n0) => {
                        let lp = cycle_seq(s, WalkKind::Next, n0.0);
                        let safe2 = safe && loop_ok(s, n0.0) && forall|j: int|
                            0 <= j < lp.len() ==> s.halfedges.dom().contains(#[trigger] lp[j].0);
                        let s2 = MeshView {
                            vertices: s.vertices.remove(v.0),
                            faces: s.faces.insert(nf.0, Face { halfedge: Some(n0) }),
                            halfedges: faces_set(s.halfedges, lp, Some(nf)),
                        };
                        (Ok(nf), remove_triples(s2, del, del.len() as int), safe2)
                    },
                },
            }
        },
    }
}

proof fn lemma_dv_safe_prefix(m: MeshView, outs: Seq<HalfEdgeId>, i: int, n: int)
    requires
        0 <= i <= n,
        dv_fold(m, outs, n).3,
    ensures
        dv_fold(m, outs, i).3,
    decreases n - i,
{
    if i < n {
        lemma_dv_safe_prefix(m, outs, i, n - 1);
    }
}

proof fn lemma_dv_err_stays(m: MeshView, outs: Seq<HalfEdgeId>, i: int, n: int)
    requires
        0 <= i <= n,
        dv_fold(m, outs, i).0 is Err,
    ensures
        dv_fold(m, outs, n) == dv_fold(m, outs, i),
    decreases n - i,
{
    if i < n {
        lemma_dv_err_stays(m, outs, i, n - 1);
    }
}

/// Every key of the triples is in the form slot maps hand out.
pub open spec fn triples_normal(del: Seq<(HalfEdgeId, HalfEdgeId, FaceId)>) -> bool {
    forall|k: int|
        0 <= k < del.len() ==> {
            &&& crate::halfedge::key_norm((#[trigger] del[k]).0.0) == del[k].0.0
            &&& crate::halfedge::key_norm(del[k].1.0) == del[k].1.0
            &&& crate::halfedge::key_norm(del[k].2.0) == del[k].2.0
        }
}

/// Removes `v` and joins the faces around it into one new face, which it
/// gives. The loops around `v` must close, and `v` must be on a face.
pub fn dissolve_vertex(mesh: &mut MeshConnectivity, v: VertexId) -> (r: Result<FaceId, EditError>)
    requires
        old(mesh).well_formed(),
        old(mesh)@.links_valid(),
        old(mesh)@.has_vertex(v),
        old(mesh)@.vertices[v.0].halfedge matches Some(h0) ==> walk_terminates(old(mesh)@, WalkKind::Fan, h0.0),
        old(mesh)@.faces.dom().len() + 3 < 0x1_0000_0000,
    ensures
        final(mesh).well_formed(),
        exists|nf: FaceId|
            !old(mesh)@.has_face(nf) && {
                &&& (r matches Err(EditError::Traversal(e)) && is_refusal(e)) ==> !(#[trigger] dissolve_outcome(old(mesh)@, v, nf)).2
                &&& !(r matches Err(EditError::Traversal(e)) && is_refusal(e)) ==> r == dissolve_outcome(old(mesh)@, v, nf).0
                    && final(mesh)@ == dissolve_outcome(old(mesh)@, v, nf).1
            },
{
    let ghost m = mesh@;
    let tv = mesh.at_vertex(v);
    let outgoing = match tv.outgoing_halfedges() {
        Ok(o) => o,
        Err(e) => {
            proof {
                if let Some(h0) = m.vertices[v.0].halfedge {
                    lemma_outcome_error_plain(m, WalkKind::Fan, h0.0);
                }
                assert(dissolve_outcome(m, v, FaceId(0)).0 == Err::<FaceId, EditError>(EditError::Traversal(e)));
                crate::halfedge::lemma_zero_not_normal();
                assert(!m.has_face(FaceId(0)));
            }
            return Err(EditError::Traversal(e));
        },
    };
    let ghost outs = outgoing@;
    assert(outgoing_of(m, v) == Ok::<Seq<HalfEdgeId>, TraversalError>(outs));
    if outgoing.len() == 0 {
        proof {
            crate::halfedge::lemma_zero_not_normal();
            assert(!m.has_face(FaceId(0)));
            assert(dissolve_outcome(m, v, FaceId(0)).0 == Err::<FaceId, EditError>(EditError::VertexNotInFace(v)));
        }
        return Err(EditError::VertexNotInFace(v));
    }
    let nf = mesh.alloc_face(None);
    let ghost m0 = mesh@;
    proof {
        assert(m0 == MeshView { vertices: m.vertices, faces: m.faces.insert(nf.0, Face { halfedge: None }), halfedges: m.halfedges });
    }
    let ghost n = outs.len() as int;
    let mut del: Vec<(HalfEdgeId, HalfEdgeId, FaceId)> = Vec::new();
    let mut i: usize = 0;
    while i < outgoing.len()
        invariant
            outs == outgoing@,
            n == outs.len(),
            n > 0,
            i <= n,
            !m.has_face(nf),
            m0 == (MeshView { vertices: m.vertices, faces: m.faces.insert(nf.0, Face { halfedge: None }), halfedges: m.halfedges }),
            dv_fold(m0, outs, i as int) == (Ok::<(), TraversalError>(()), mesh@, del@, true),
            triples_normal(del@),
            mesh.well_formed(),
            mesh@.links_valid(),
            outgoing_of(m, v) == Ok::<Seq<HalfEdgeId>, TraversalError>(outs),
            m == old(mesh)@,
            mesh@.faces == m0.faces,
            mesh@.halfedges.dom() == m.halfedges.dom(),
            forall|j: int| 0 <= j < n ==> m.halfedges.dom().contains(#[trigger] outs[j].0),
        decreases n - i,
    {
        let h = outgoing[i];
        let he = mesh.halfedge(h);
        let tw = match he.twin {
            Some(x) => x,
            None => {
                proof {
                    lemma_dv_err_stays(m0, outs, i + 1, n);
                    assert(dv_fold(m0, outs, i + 1).0 == Err::<(), TraversalError>(TraversalError::HalfEdgeHasNoTwin(h)));
                    assert(dv_fold(m0, outs, i + 1).1 == mesh@);
                    assert(dissolve_outcome(m, v, nf).0 == Err::<FaceId, EditError>(EditError::Traversal(TraversalError::HalfEdgeHasNoTwin(h))));
                    assert(dissolve_outcome(m, v, nf).1 == mesh@);
                }
                return Err(EditError::Traversal(TraversalError::HalfEdgeHasNoTwin(h)));
            },
        };
        let w = match mesh.halfedge(tw).vertex {
            Some(x) => x,
            None => {
                proof {
                    lemma_dv_err_stays(m0, outs, i + 1, n);
                }
                return Err(EditError::Traversal(TraversalError::HalfEdgeHasNoVertex(tw)));
            },
        };
        let nxt = match he.next {
            Some(x) => x,
            None => {
                proof {
                    lemma_dv_err_stays(m0, outs, i + 1, n);
                }
                return Err(EditError::Traversal(TraversalError::HalfEdgeHasNoNext(h)));
            },
        };
        let f = match he.face {
            Some(x) => x,
            None => {
                proof {
                    lemma_dv_err_stays(m0, outs, i + 1, n);
                }
                return Err(EditError::Traversal(TraversalError::HalfEdgeHasNoFace(h)));
            },
        };
        if !loop_check(mesh, tw) {
            proof {
                assert(!dv_fold(m0, outs, i + 1).3);
                if dv_fold(m0, outs, n).3 {
                    lemma_dv_safe_prefix(m0, outs, i + 1, n);
                }
            }
            return Err(EditError::Traversal(TraversalError::HalfedgeBadLoop(tw)));
        }
        proof {
            lemma_loop_ok_cycles(mesh@, tw.0);
        }
        let lp = mesh.halfedge_loop(tw);
        let prv = lp[lp.len() - 1];
        proof {
            crate::halfedge::lemma_walk_in_dom(mesh@, WalkKind::Next, tw.0, (lp@.len() - 1) as nat);
        }
        let ghost dom0 = mesh@.halfedges.dom();
        mesh.set_next(prv, Some(nxt));
        assert(mesh@.halfedges.dom() =~= dom0);
        if mesh.vertex(w).halfedge == Some(tw) {
            mesh.set_vertex(w, Vertex { halfedge: Some(nxt) });
        }
        del.push((tw, h, f));
        i += 1;
    }
    proof {
        assert(outs[0] == outgoing@[0]);
        assert(dv_fold(m0, outs, n) == (Ok::<(), TraversalError>(()), mesh@, del@, true));
    }
    let ghost s = mesh@;
    let h0 = outgoing[0];
    let n0 = match mesh.halfedge(h0).next {
        Some(x) => x,
        None => {
            proof {
                assert(dissolve_outcome(m, v, nf).0 == Err::<FaceId, EditError>(EditError::Traversal(TraversalError::HalfEdgeHasNoNext(h0))));
                assert(dissolve_outcome(m, v, nf).1 == mesh@);
            }
            return Err(EditError::Traversal(TraversalError::HalfEdgeHasNoNext(h0)));
        },
    };
    if !loop_check(mesh, n0) {
        return Err(EditError::Traversal(TraversalError::HalfedgeBadLoop(n0)));
    }
    proof {
        lemma_loop_ok_cycles(mesh@, n0.0);
    }
    let lp = mesh.halfedge_loop(n0);
    let ghost hs = lp@;
    proof {
        assert forall|j: int| 0 <= j < hs.len() implies s.halfedges.dom().contains(#[trigger] hs[j].0) by {
            crate::halfedge::lemma_walk_in_dom(s, WalkKind::Next, n0.0, j as nat);
        }
    }
    let mut k: usize = 0;
    while k < lp.len()
        invariant
            mesh.well_formed(),
            hs == lp@,
            k <= hs.len(),
            forall|j: int| 0 <= j < hs.len() ==> s.halfedges.dom().contains(#[trigger] hs[j].0),
            mesh@.halfedges == faces_set(s.halfedges, hs.take(k as int), Some(nf)),
            mesh@.vertices == s.vertices,
            mesh@.faces == s.faces,
        decreases hs.len() - k,
    {
        proof {
            crate::edit_ops::lemma_faces_set_dom(s.halfedges, hs.take(k as int), Some(nf));
            assert(hs.take(k + 1).drop_last() =~= hs.take(k as int));
            assert(hs.take(k + 1).last() == hs[k as int]);
        }
        mesh.set_halfedge_face(lp[k], Some(nf));
        k += 1;
    }
    assert(hs.take(hs.len() as int) =~= hs);
    mesh.set_face(nf, Face { halfedge: Some(n0) });
    proof {
        assert(crate::halfedge::key_norm(v.0) == v.0);
    }
    mesh.remove_vertex(v);
    let ghost s2 = mesh@;
    let mut j: usize = 0;
    while j < del.len()
        invariant
            mesh.well_formed(),
            j <= del@.len(),
            triples_normal(del@),
            mesh@ == remove_triples(s2, del@, j as int),
        decreases del@.len() - j,
    {
        let (tw, h, f) = del[j];
        proof {
            assert(del@[j as int] == (tw, h, f));
        }
        mesh.remove_halfedge(tw);
        mesh.remove_halfedge(h);
        mesh.remove_face(f);
        j += 1;
    }
    Ok(nf)
}

} // verus!
