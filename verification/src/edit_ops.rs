//! Edits of the mesh connectivity: each changes a few pointers and adds or
//! removes a few elements.
use vstd::prelude::*;

pub mod lua_fns;
pub mod collapse;

pub mod dissolve;
pub mod cut;
pub mod chain;
pub mod curve;
pub mod bridge;
pub mod bevel;

pub use collapse::collapse_edge;
pub use cut::cut_face;
pub use chain::sort_bag_of_edges;
pub use curve::add_edge_chain;
pub use bridge::bridge_chains;
pub use bevel::{bevel_edges_connectivity, chamfer_vertex, extrude_faces_connectivity};

pub use dissolve::dissolve_vertex;

use crate::halfedge::{
    closes_within, cycle_seq, walk_closes, walk_cycles, walk_outcome, walk_terminates, Face, FaceId, HalfEdge, HalfEdgeId, MeshConnectivity, MeshView, Vertex, VertexId,
    WalkKind,
};
use crate::channels::{name_index, ChannelError, ChannelGroup, ChannelKeyType};
use crate::mesh::{dom_of, in_slot_order, resolved_full, HalfEdgeMesh};
use glam::Vec3;
use crate::selection::{SelectionExpression, SelectionView};
use crate::traversals::{first_to, AnyTraversal, TraversalError, VertexTraversalHelpers};

verus! {

/// `he` with its `next` replaced.
pub open spec fn with_next(he: HalfEdge, n: Option<HalfEdgeId>) -> HalfEdge {
    HalfEdge { twin: he.twin, next: n, vertex: he.vertex, face: he.face }
}

/// `he` with its `twin` replaced.
pub open spec fn with_twin(he: HalfEdge, t: Option<HalfEdgeId>) -> HalfEdge {
    HalfEdge { twin: t, next: he.next, vertex: he.vertex, face: he.face }
}

/// `he` with its `face` replaced.
pub open spec fn with_face(he: HalfEdge, f: Option<FaceId>) -> HalfEdge {
    HalfEdge { twin: he.twin, next: he.next, vertex: he.vertex, face: f }
}

/// `he` with its `vertex` replaced.
pub open spec fn with_vertex(he: HalfEdge, v: Option<VertexId>) -> HalfEdge {
    HalfEdge { twin: he.twin, next: he.next, vertex: v, face: he.face }
}

/// The source and destination of `h`, when both are known.
pub open spec fn src_dst(m: MeshView, h: HalfEdgeId) -> Result<(VertexId, VertexId), TraversalError> {
    match m.halfedges[h.0].vertex {
        Some(a) => match m.halfedges[h.0].next {
            Some(n) => match m.halfedges[n.0].vertex {
                Some(b) => Ok((a, b)),
                None => Err(TraversalError::HalfEdgeHasNoVertex(n)),
            },
            None => Err(TraversalError::HalfEdgeHasNoNext(h)),
        },
        None => Err(TraversalError::HalfEdgeHasNoVertex(h)),
    }
}

impl MeshConnectivity {
    /// Sets the `next` pointer of `h`.
    pub fn set_next(&mut self, h: HalfEdgeId, n: Option<HalfEdgeId>)
        requires
            old(self).well_formed(),
            old(self)@.has_halfedge(h),
        ensures
            final(self).well_formed(),
            final(self)@.halfedges == old(self)@.halfedges.insert(h.0, with_next(old(self)@.halfedges[h.0], n)),
            final(self)@.vertices == old(self)@.vertices,
            final(self)@.faces == old(self)@.faces,
            old(self)@.links_valid() && old(self)@.opt_halfedge_ok(n) ==> final(self)@.links_valid(),
    {
        let he = self.halfedge(h);
        proof {
            if old(self)@.links_valid() {
                assert(old(self)@.halfedge_links_ok(old(self)@.halfedges[h.0]));
            }
        }
        self.set_halfedge(h, HalfEdge { next: n, ..he });
    }

    /// Sets the `twin` pointer of `h`.
    pub fn set_twin(&mut self, h: HalfEdgeId, t: Option<HalfEdgeId>)
        requires
            old(self).well_formed(),
            old(self)@.has_halfedge(h),
        ensures
            final(self).well_formed(),
            final(self)@.halfedges == old(self)@.halfedges.insert(h.0, with_twin(old(self)@.halfedges[h.0], t)),
            final(self)@.vertices == old(self)@.vertices,
            final(self)@.faces == old(self)@.faces,
            old(self)@.links_valid() && old(self)@.opt_halfedge_ok(t) ==> final(self)@.links_valid(),
    {
        let he = self.halfedge(h);
        proof {
            if old(self)@.links_valid() {
                assert(old(self)@.halfedge_links_ok(old(self)@.halfedges[h.0]));
            }
        }
        self.set_halfedge(h, HalfEdge { twin: t, ..he });
    }

    /// Sets the `face` pointer of `h`.
    pub fn set_halfedge_face(&mut self, h: HalfEdgeId, f: Option<FaceId>)
        requires
            old(self).well_formed(),
            old(self)@.has_halfedge(h),
        ensures
            final(self).well_formed(),
            final(self)@.halfedges == old(self)@.halfedges.insert(h.0, with_face(old(self)@.halfedges[h.0], f)),
            final(self)@.vertices == old(self)@.vertices,
            final(self)@.faces == old(self)@.faces,
            old(self)@.links_valid() && (f matches Some(x) ==> old(self)@.has_face(x))
                ==> final(self)@.links_valid(),
    {
        let he = self.halfedge(h);
        proof {
            if old(self)@.links_valid() {
                assert(old(self)@.halfedge_links_ok(old(self)@.halfedges[h.0]));
            }
        }
        self.set_halfedge(h, HalfEdge { face: f, ..he });
    }

    /// Sets the `vertex` pointer of `h`.
    pub fn set_halfedge_vertex(&mut self, h: HalfEdgeId, v: Option<VertexId>)
        requires
            old(self).well_formed(),
            old(self)@.has_halfedge(h),
        ensures
            final(self).well_formed(),
            final(self)@.halfedges == old(self)@.halfedges.insert(h.0, with_vertex(old(self)@.halfedges[h.0], v)),
            final(self)@.vertices == old(self)@.vertices,
            final(self)@.faces == old(self)@.faces,
            old(self)@.links_valid() && (v matches Some(x) ==> old(self)@.has_vertex(x))
                ==> final(self)@.links_valid(),
    {
        let he = self.halfedge(h);
        proof {
            if old(self)@.links_valid() {
                assert(old(self)@.halfedge_links_ok(old(self)@.halfedges[h.0]));
            }
        }
        self.set_halfedge(h, HalfEdge { vertex: v, ..he });
    }
}

/// The half-edge map after `duplicate_edge` on `h` (source `v`, destination
/// `w`, twin `t`), with `a` and `b` the new half-edges and `f` the new face:
/// `a` runs from `v` and `b` from `w`, they form the face `f`, and the twins
/// of `h` and `t` become `b` and `a`.
pub open spec fn duplicated_halfedges(
    m: Map<u64, HalfEdge>,
    h: HalfEdgeId,
    t: HalfEdgeId,
    v: VertexId,
    w: VertexId,
    a: HalfEdgeId,
    b: HalfEdgeId,
    f: FaceId,
) -> Map<u64, HalfEdge> {
    let m1 = m.insert(a.0, HalfEdge { twin: Some(t), next: Some(b), vertex: Some(v), face: Some(f) }).insert(
        b.0,
        HalfEdge { twin: Some(h), next: Some(a), vertex: Some(w), face: Some(f) },
    );
    let m2 = m1.insert(t.0, with_twin(m1[t.0], Some(a)));
    m2.insert(h.0, with_twin(m2[h.0], Some(b)))
}

/// Creates a two-sided face on the inside of the edge of `h`: two new
/// half-edges forming a new face, each the twin of one side of the edge.
/// This changes nothing of the shape, and is a step of the bevel.
pub fn duplicate_edge(mesh: &mut MeshConnectivity, h: HalfEdgeId) -> (r: Result<HalfEdgeId, TraversalError>)
    requires
        old(mesh).well_formed(),
        old(mesh)@.links_valid(),
        old(mesh)@.has_halfedge(h),
        old(mesh)@.has_room(2),
    ensures
        final(mesh).well_formed(),
        final(mesh)@.links_valid(),
        match (src_dst(old(mesh)@, h), old(mesh)@.halfedges[h.0].twin) {
            (Err(e), _) => r == Err::<HalfEdgeId, TraversalError>(e) && final(mesh)@ == old(mesh)@,
            (Ok(_), None) => r == Err::<HalfEdgeId, TraversalError>(TraversalError::HalfEdgeHasNoTwin(h))
                && final(mesh)@ == old(mesh)@,
            (Ok((v, w)), Some(t)) => r matches Ok(a) && {
                let m = old(mesh)@;
                let b = final(mesh)@.halfedges[a.0].next->Some_0;
                let f = final(mesh)@.halfedges[a.0].face->Some_0;
                &&& !m.has_halfedge(a) && !m.has_halfedge(b) && a != b && !m.has_face(f)
                &&& final(mesh)@.halfedges == duplicated_halfedges(m.halfedges, h, t, v, w, a, b, f)
                &&& final(mesh)@.faces == m.faces.insert(f.0, Face { halfedge: Some(a) })
                &&& final(mesh)@.vertices == m.vertices
            },
        },
{
    let ghost m = mesh@;
    proof {
        assert(m.halfedge_links_ok(m.halfedges[h.0]));
    }
    let he = mesh.halfedge(h);
    let v = match he.vertex {
        Some(v) => v,
        None => {
            return Err(TraversalError::HalfEdgeHasNoVertex(h));
        },
    };
    let n = match he.next {
        Some(n) => n,
        None => {
            return Err(TraversalError::HalfEdgeHasNoNext(h));
        },
    };
    let w = match mesh.halfedge(n).vertex {
        Some(w) => w,
        None => {
            return Err(TraversalError::HalfEdgeHasNoVertex(n));
        },
    };
    let h_v_w = h;
    let h_w_v = match he.twin {
        Some(t) => t,
        None => {
            return Err(TraversalError::HalfEdgeHasNoTwin(h));
        },
    };
    proof {
        assert(m.halfedge_links_ok(m.halfedges[n.0]));
    }
    let h2_v_w = mesh.alloc_halfedge(HalfEdge::new_unlinked());
    let h2_w_v = mesh.alloc_halfedge(HalfEdge::new_unlinked());
    let inner_face = mesh.alloc_face(Some(h2_v_w));
    let ghost m0 = mesh@;

    // The two new halfedges make a cycle (a two-sided face).
    mesh.set_halfedge(h2_v_w, HalfEdge { twin: Some(h_w_v), next: Some(h2_w_v), vertex: Some(v), face: Some(inner_face) });
    mesh.set_halfedge(h2_w_v, HalfEdge { twin: Some(h_v_w), next: Some(h2_v_w), vertex: Some(w), face: Some(inner_face) });

    // The twins point to the respective outer halfedges of the original edge.
    mesh.set_twin(h_w_v, Some(h2_v_w));
    mesh.set_twin(h_v_w, Some(h2_w_v));
    proof {
        let m1 = m.halfedges.insert(h2_v_w.0, HalfEdge { twin: Some(h_w_v), next: Some(h2_w_v), vertex: Some(v), face: Some(inner_face) }).insert(
            h2_w_v.0,
            HalfEdge { twin: Some(h_v_w), next: Some(h2_v_w), vertex: Some(w), face: Some(inner_face) },
        );
        assert(m0.halfedges.insert(h2_v_w.0, HalfEdge { twin: Some(h_w_v), next: Some(h2_w_v), vertex: Some(v), face: Some(inner_face) }).insert(
            h2_w_v.0,
            HalfEdge { twin: Some(h_v_w), next: Some(h2_v_w), vertex: Some(w), face: Some(inner_face) },
        ) =~= m1);
        assert(mesh@.halfedges =~= duplicated_halfedges(m.halfedges, h, h_w_v, v, w, h2_v_w, h2_w_v, inner_face));
    }
    Ok(h2_v_w)
}


/// The half-edge before `h` in its `next` loop.
pub open spec fn prev_of(m: MeshView, h: HalfEdgeId) -> HalfEdgeId {
    cycle_seq(m, WalkKind::Next, h.0).last()
}

/// `m` with the face of each half-edge of `hs` set to `f`, in order.
pub open spec fn faces_set(m: Map<u64, HalfEdge>, hs: Seq<HalfEdgeId>, f: Option<FaceId>) -> Map<u64, HalfEdge>
    decreases hs.len(),
{
    if hs.len() == 0 {
        m
    } else {
        let p = faces_set(m, hs.drop_last(), f);
        p.insert(hs.last().0, with_face(p[hs.last().0], f))
    }
}

proof fn lemma_faces_set_dom(m: Map<u64, HalfEdge>, hs: Seq<HalfEdgeId>, f: Option<FaceId>)
    requires
        forall|i: int| 0 <= i < hs.len() ==> m.dom().contains(#[trigger] hs[i].0),
    ensures
        faces_set(m, hs, f).dom() == m.dom(),
    decreases hs.len(),
{
    if hs.len() > 0 {
        lemma_faces_set_dom(m, hs.drop_last(), f);
        assert(faces_set(m, hs, f).dom() =~= m.dom());
    }
}

/// The preconditions under which `dissolve_edge` on `h_l` does not panic:
/// once the twin and both faces are found, the edge has both endpoints and
/// the `next` loops of both sides close.
pub open spec fn dissolve_edge_safe(m: MeshView, h_l: HalfEdgeId) -> bool {
    let he = m.halfedges[h_l.0];
    match he.twin {
        Some(h_r) => (he.face is Some && m.halfedges[h_r.0].face is Some) ==> {
            &&& src_dst(m, h_l) is Ok
            &&& walk_cycles(m, WalkKind::Next, h_l.0)
            &&& (m.halfedges[h_r.0].next is Some ==> walk_cycles(m, WalkKind::Next, h_r.0))
        },
        None => true,
    }
}

/// What `dissolve_edge` makes of the mesh `m` when it succeeds on `h_l`.
pub open spec fn dissolved(m: MeshView, h_l: HalfEdgeId) -> MeshView {
    let h_r = m.halfedges[h_l.0].twin->Some_0;
    let f_l = m.halfedges[h_l.0].face->Some_0;
    let f_r = m.halfedges[h_r.0].face->Some_0;
    let v = m.halfedges[h_l.0].vertex->Some_0;
    let w = m.halfedges[m.halfedges[h_l.0].next->Some_0.0].vertex->Some_0;
    let h_l_nxt = m.halfedges[h_l.0].next->Some_0;
    let h_l_prv = prev_of(m, h_l);
    let h_r_nxt = m.halfedges[h_r.0].next->Some_0;
    let h_r_prv = prev_of(m, h_r);
    let hs1 = m.halfedges.insert(h_r_prv.0, with_next(m.halfedges[h_r_prv.0], Some(h_l_nxt)));
    let hs2 = hs1.insert(h_l_prv.0, with_next(hs1[h_l_prv.0], Some(h_r_nxt)));
    let hs3 = faces_set(hs2, cycle_seq(m, WalkKind::Next, h_r.0), Some(f_l));
    let fs1 = if m.faces[f_l.0].halfedge == Some(h_l) {
        m.faces.insert(f_l.0, Face { halfedge: Some(h_l_prv) })
    } else {
        m.faces
    };
    let vs1 = if m.vertices[v.0].halfedge == Some(h_l) {
        m.vertices.insert(v.0, Vertex { halfedge: Some(h_l_nxt) })
    } else {
        m.vertices
    };
    let vs2 = if vs1[w.0].halfedge == Some(h_r) {
        vs1.insert(w.0, Vertex { halfedge: Some(h_r_nxt) })
    } else {
        vs1
    };
    MeshView {
        vertices: vs2,
        faces: fs1.remove(f_r.0),
        halfedges: hs3.remove(h_l.0).remove(h_r.0),
    }
}

/// Removes the edge of `h_l`, merging its two faces: the face of `h_l` is
/// kept and the one of its twin removed. Both sides must be on a face.
pub fn dissolve_edge(mesh: &mut MeshConnectivity, h_l: HalfEdgeId) -> (r: Result<(), TraversalError>)
    requires
        old(mesh).well_formed(),
        old(mesh)@.links_valid(),
        old(mesh)@.has_halfedge(h_l),
        dissolve_edge_safe(old(mesh)@, h_l),
    ensures
        final(mesh).well_formed(),
        ({
            let m = old(mesh)@;
            let he = m.halfedges[h_l.0];
            match he.twin {
                None => r == Err::<(), TraversalError>(TraversalError::HalfEdgeHasNoTwin(h_l)) && final(mesh)@ == m,
                Some(h_r) => if he.face is None {
                    r == Err::<(), TraversalError>(TraversalError::HalfEdgeHasNoFace(h_l)) && final(mesh)@ == m
                } else if m.halfedges[h_r.0].face is None {
                    r == Err::<(), TraversalError>(TraversalError::HalfEdgeHasNoFace(h_r)) && final(mesh)@ == m
                } else if m.halfedges[h_r.0].next is None {
                    r == Err::<(), TraversalError>(TraversalError::HalfEdgeHasNoNext(h_r)) && final(mesh)@ == m
                } else {
                    r is Ok && final(mesh)@ == dissolved(m, h_l)
                },
            }
        }),
{
    let ghost m = mesh@;
    proof {
        assert(m.halfedge_links_ok(m.halfedges[h_l.0]));
    }
    let he_l = mesh.halfedge(h_l);
    let h_r = match he_l.twin {
        Some(t) => t,
        None => {
            return Err(TraversalError::HalfEdgeHasNoTwin(h_l));
        },
    };
    proof {
        assert(m.halfedge_links_ok(m.halfedges[h_r.0]));
    }
    let f_l = match he_l.face {
        Some(f) => f,
        None => {
            return Err(TraversalError::HalfEdgeHasNoFace(h_l));
        },
    };
    let he_r = mesh.halfedge(h_r);
    let f_r = match he_r.face {
        Some(f) => f,
        None => {
            return Err(TraversalError::HalfEdgeHasNoFace(h_r));
        },
    };
    let v = he_l.vertex.unwrap();
    let h_l_nxt = he_l.next.unwrap();
    proof {
        assert(m.halfedge_links_ok(m.halfedges[h_l_nxt.0]));
    }
    let w = mesh.halfedge(h_l_nxt).vertex.unwrap();
    let loop_l = mesh.halfedge_loop(h_l);
    let h_l_prv = loop_l[loop_l.len() - 1];
    let h_r_nxt = match he_r.next {
        Some(n) => n,
        None => {
            return Err(TraversalError::HalfEdgeHasNoNext(h_r));
        },
    };
    let halfedges_r = mesh.halfedge_loop(h_r);
    let h_r_prv = halfedges_r[halfedges_r.len() - 1];
    proof {
        crate::halfedge::lemma_walk_in_dom(m, WalkKind::Next, h_l.0, (loop_l@.len() - 1) as nat);
        crate::halfedge::lemma_walk_in_dom(m, WalkKind::Next, h_r.0, (halfedges_r@.len() - 1) as nat);
        assert(m.has_halfedge(h_l_prv));
        assert(m.has_halfedge(h_r_prv));
        assert(m.has_vertex(v));
        assert(m.has_vertex(w));
        assert forall|i: int| 0 <= i < halfedges_r@.len() implies m.halfedges.dom().contains(#[trigger] halfedges_r@[i].0) by {
            crate::halfedge::lemma_walk_in_dom(m, WalkKind::Next, h_r.0, i as nat);
        }
    }

    // --- Fix connectivity ---
    mesh.set_next(h_r_prv, Some(h_l_nxt));
    mesh.set_next(h_l_prv, Some(h_r_nxt));
    let ghost base = mesh@.halfedges;
    let ghost hs = halfedges_r@;
    let mut i: usize = 0;
    while i < halfedges_r.len()
        invariant
            mesh.well_formed(),
            hs == halfedges_r@,
            i <= hs.len(),
            base.dom() == m.halfedges.dom(),
            forall|j: int| 0 <= j < hs.len() ==> m.halfedges.dom().contains(#[trigger] hs[j].0),
            mesh@.halfedges == faces_set(base, hs.take(i as int), Some(f_l)),
            mesh@.vertices == m.vertices,
            mesh@.faces == m.faces,
        decreases hs.len() - i,
    {
        proof {
            lemma_faces_set_dom(base, hs.take(i as int), Some(f_l));
            assert(hs.take(i + 1).drop_last() =~= hs.take(i as int));
            assert(hs.take(i + 1).last() == hs[i as int]);
        }
        mesh.set_halfedge_face(halfedges_r[i], Some(f_l));
        i += 1;
    }
    assert(hs.take(hs.len() as int) =~= hs);
    proof {
        lemma_faces_set_dom(base, hs, Some(f_l));
        assert(m.has_face(f_l));
    }
    // Faces or vertices may point to the halfedge we're about to remove; in
    // that case, rotate them.
    if mesh.face(f_l).halfedge == Some(h_l) {
        mesh.set_face(f_l, Face { halfedge: Some(h_l_prv) });
    }
    if mesh.vertex(v).halfedge == Some(h_l) {
        mesh.set_vertex(v, Vertex { halfedge: Some(h_l_nxt) });
    }
    if mesh.vertex(w).halfedge == Some(h_r) {
        mesh.set_vertex(w, Vertex { halfedge: Some(h_r_nxt) });
    }

    // --- Remove elements ---
    proof {
        assert(crate::halfedge::key_norm(h_l.0) == h_l.0);
        assert(crate::halfedge::key_norm(h_r.0) == h_r.0);
        assert(crate::halfedge::key_norm(f_r.0) == f_r.0);
    }
    mesh.remove_halfedge(h_l);
    mesh.remove_halfedge(h_r);
    mesh.remove_face(f_r);
    proof {
        assert(cycle_seq(m, WalkKind::Next, h_l.0) == loop_l@);
        assert(mesh@.halfedges =~= dissolved(m, h_l).halfedges);
        assert(mesh@.vertices =~= dissolved(m, h_l).vertices);
        assert(mesh@.faces =~= dissolved(m, h_l).faces);
    }
    Ok(())
}


/// Sets the `next` of `h` in the half-edge map `m`.
pub open spec fn upd_next(m: Map<u64, HalfEdge>, h: HalfEdgeId, n: HalfEdgeId) -> Map<u64, HalfEdge> {
    m.insert(h.0, with_next(m[h.0], Some(n)))
}

/// Sets the `twin` of `h` in the half-edge map `m`.
pub open spec fn upd_twin(m: Map<u64, HalfEdge>, h: HalfEdgeId, t: HalfEdgeId) -> Map<u64, HalfEdge> {
    m.insert(h.0, with_twin(m[h.0], Some(t)))
}

/// Sets the `vertex` of `h` in the half-edge map `m`.
pub open spec fn upd_vertex(m: Map<u64, HalfEdge>, h: HalfEdgeId, v: VertexId) -> Map<u64, HalfEdge> {
    m.insert(h.0, with_vertex(m[h.0], Some(v)))
}

/// Sets the `face` of `h` in the half-edge map `m`.
pub open spec fn upd_face(m: Map<u64, HalfEdge>, h: HalfEdgeId, f: Option<FaceId>) -> Map<u64, HalfEdge> {
    m.insert(h.0, with_face(m[h.0], f))
}

/// The half-edge map after dividing the edge of `h` at the new vertex `x`,
/// with `a` and `b` the new half-edges: `a` runs from the source to `x` and
/// `h` goes on from `x`; `b` is the twin of `a`, and the twin of `h` now
/// ends at `x`.
pub open spec fn divided_halfedges(m: MeshView, h: HalfEdgeId, x: VertexId, a: HalfEdgeId, b: HalfEdgeId) -> Map<u64, HalfEdge> {
    let h_r = m.halfedges[h.0].twin->Some_0;
    let h_l_prev = prev_of(m, h);
    let h_r_next = m.halfedges[h_r.0].next->Some_0;
    let v = m.halfedges[h.0].vertex->Some_0;
    let w = m.halfedges[m.halfedges[h.0].next->Some_0.0].vertex->Some_0;
    let f_l = m.halfedges[h.0].face;
    let f_r = m.halfedges[h_r.0].face;
    let m0 = m.halfedges.insert(a.0, HalfEdge { twin: None, next: None, vertex: None, face: None }).insert(
        b.0,
        HalfEdge { twin: None, next: None, vertex: None, face: None },
    );
    let m1 = upd_next(upd_next(upd_next(upd_next(m0, a, h), h_l_prev, a), h_r, b), b, h_r_next);
    let m2 = upd_twin(upd_twin(upd_twin(upd_twin(m1, a, b), b, a), h, h_r), h_r, h);
    let m3 = upd_vertex(upd_vertex(upd_vertex(upd_vertex(m2, h, x), h_r, w), b, x), a, v);
    upd_face(upd_face(m3, a, f_l), b, f_r)
}

/// Divides the edge of `h`, creating a vertex in between and a new pair of
/// half-edges. `h` stays on the second half of the edge, from the new vertex
/// to the old destination; the new half-edge runs from the source to the
/// new vertex. The new vertex gets no position here.
pub fn divide_edge(mesh: &mut MeshConnectivity, h: HalfEdgeId) -> (r: Result<VertexId, TraversalError>)
    requires
        old(mesh).well_formed(),
        old(mesh)@.links_valid(),
        old(mesh)@.has_halfedge(h),
        old(mesh)@.has_room(2),
        old(mesh)@.halfedges[h.0].twin is Some ==> walk_cycles(old(mesh)@, WalkKind::Next, h.0),
    ensures
        final(mesh).well_formed(),
        final(mesh)@.links_valid(),
        ({
            let m = old(mesh)@;
            match m.halfedges[h.0].twin {
                None => r == Err::<VertexId, TraversalError>(TraversalError::HalfEdgeHasNoTwin(h)) && final(mesh)@ == m,
                Some(h_r) => if m.halfedges[h_r.0].next is None {
                    r == Err::<VertexId, TraversalError>(TraversalError::HalfEdgeHasNoNext(h_r)) && final(mesh)@ == m
                } else if src_dst(m, h) is Err {
                    r == Err::<VertexId, TraversalError>(src_dst(m, h)->Err_0) && final(mesh)@ == m
                } else {
                    r matches Ok(x) && {
                        let a = final(mesh)@.vertices[m.halfedges[h.0].vertex->Some_0.0].halfedge->Some_0;
                        let b = final(mesh)@.halfedges[a.0].twin->Some_0;
                        &&& !m.has_vertex(x) && !m.has_halfedge(a) && !m.has_halfedge(b) && a != b
                        &&& final(mesh)@.halfedges == divided_halfedges(m, h, x, a, b)
                        &&& final(mesh)@.vertices == m.vertices.insert(x.0, Vertex { halfedge: Some(h) }).insert(
                            m.halfedges[h.0].vertex->Some_0.0,
                            Vertex { halfedge: Some(a) },
                        )
                        &&& final(mesh)@.faces == m.faces
                    }
                },
            }
        }),
{
    let ghost m = mesh@;
    proof {
        assert(m.halfedge_links_ok(m.halfedges[h.0]));
    }
    let h_l = h;
    let he = mesh.halfedge(h_l);
    let h_r = match he.twin {
        Some(t) => t,
        None => {
            return Err(TraversalError::HalfEdgeHasNoTwin(h_l));
        },
    };
    proof {
        assert(m.halfedge_links_ok(m.halfedges[h_r.0]));
    }
    let loop_l = mesh.halfedge_loop(h_l);
    let h_l_prev = loop_l[loop_l.len() - 1];
    proof {
        crate::halfedge::lemma_walk_in_dom(m, WalkKind::Next, h_l.0, (loop_l@.len() - 1) as nat);
    }
    let h_r_next = match mesh.halfedge(h_r).next {
        Some(n) => n,
        None => {
            return Err(TraversalError::HalfEdgeHasNoNext(h_r));
        },
    };
    let f_l = he.face;
    let f_r = mesh.halfedge(h_r).face;
    let v = match he.vertex {
        Some(v) => v,
        None => {
            return Err(TraversalError::HalfEdgeHasNoVertex(h));
        },
    };
    proof {
        lemma_cycles_has_next(m, h.0);
    }
    let n = he.next.unwrap();
    proof {
        assert(m.halfedge_links_ok(m.halfedges[n.0]));
    }
    let w = match mesh.halfedge(n).vertex {
        Some(w) => w,
        None => {
            return Err(TraversalError::HalfEdgeHasNoVertex(n));
        },
    };

    // Allocate new elements
    let x = mesh.alloc_vertex(None);
    let h_l_2 = mesh.alloc_halfedge(HalfEdge::new_unlinked());
    let h_r_2 = mesh.alloc_halfedge(HalfEdge::new_unlinked());
    let ghost m0 = mesh@;
    proof {
        assert(m0.halfedges =~= m.halfedges.insert(h_l_2.0, HalfEdge { twin: None, next: None, vertex: None, face: None }).insert(
            h_r_2.0,
            HalfEdge { twin: None, next: None, vertex: None, face: None },
        ));
        assert(m0.links_valid());
    }

    // Next pointers
    mesh.set_next(h_l_2, Some(h_l));
    mesh.set_next(h_l_prev, Some(h_l_2));
    mesh.set_next(h_r, Some(h_r_2));
    mesh.set_next(h_r_2, Some(h_r_next));

    // Twin pointers
    mesh.set_twin(h_l_2, Some(h_r_2));
    mesh.set_twin(h_r_2, Some(h_l_2));
    mesh.set_twin(h_l, Some(h_r));
    mesh.set_twin(h_r, Some(h_l));

    // Vertex pointers
    mesh.set_halfedge_vertex(h_l, Some(x));
    mesh.set_halfedge_vertex(h_r, Some(w));
    mesh.set_halfedge_vertex(h_r_2, Some(x));
    mesh.set_halfedge_vertex(h_l_2, Some(v));

    // Face pointers: may be None on the boundary
    mesh.set_halfedge_face(h_l_2, f_l);
    mesh.set_halfedge_face(h_r_2, f_r);

    mesh.set_vertex(x, Vertex { halfedge: Some(h_l) });
    mesh.set_vertex(v, Vertex { halfedge: Some(h_l_2) });
    proof {
        assert(cycle_seq(m, WalkKind::Next, h.0) == loop_l@);
        assert(mesh@.halfedges =~= divided_halfedges(m, h, x, h_l_2, h_r_2));
    }
    Ok(x)
}

/// A half-edge whose `next` loop closes has a `next`.
pub proof fn lemma_cycles_has_next(m: MeshView, h: u64)
    requires
        walk_cycles(m, WalkKind::Next, h),
    ensures
        m.halfedges[h].next is Some,
{
    let k = choose|k: nat| k >= 1 && crate::halfedge::walk(m, WalkKind::Next, h, k) == Ok::<u64, TraversalError>(h);
    assert(crate::halfedge::walk(m, WalkKind::Next, h, 0) == Ok::<u64, TraversalError>(h));
    if m.halfedges[h].next is None {
        assert(crate::halfedge::walk(m, WalkKind::Next, h, 1) is Err);
        crate::halfedge::lemma_walk_error_sticks(m, WalkKind::Next, h, 1, k);
    }
}


/// Why an edit of a mesh failed.
#[derive(Debug, PartialEq, Eq)]
pub enum EditError {
    /// A traversal of the connectivity stopped.
    Traversal(TraversalError),
    /// A channel could not be created or read.
    Channel(ChannelError),
    /// `make_quad` was given a number of vertices other than four.
    NotAQuad,
    /// A half-edge of the new quad already has a face.
    NotInBoundary(HalfEdgeId),
    /// A half-edge that `make_quad` relies on has no `next`.
    MissingNext(HalfEdgeId),
    /// A selection that must pick an element picked none.
    EmptySelection,
    /// A walk around a face or a vertex did not come back within as many
    /// steps as the mesh has half-edges.
    OpenLoop,
    /// `dissolve_vertex` was given a vertex on no face.
    VertexNotInFace(VertexId),
    /// `cut_face` was given two vertices with no face in common.
    NoSharedFace,
    /// `cut_face` was given two vertices already joined by an edge.
    AlreadyAdjacent,
    /// `cut_face` was asked to cut a triangle.
    FaceTooSmall,
    /// A bag of edges to sort was empty.
    EmptyBag,
    /// The edges of a bag do not form a chain.
    NotAChain,
    /// The tip of a curve must have exactly one incoming half-edge.
    NotOneIncoming(VertexId),
    /// The tip of a curve must have exactly one outgoing half-edge.
    NotOneOutgoing(VertexId),
    /// A curve needs two points or more.
    TooFewPoints,
    /// Chains to bridge must have the same length.
    BridgeLengths,
    /// Chains to bridge cannot be empty.
    BridgeEmpty,
    /// A side of a bridge is not a boundary edge: bridging would make the
    /// mesh non-manifold.
    BridgeNotBoundary,
    /// A chain cannot be bridged with itself.
    BridgeSameLoop,
    /// The mesh has no room for another face.
    CapacityExceeded,
}

impl HalfEdgeMesh {
    /// The groups of the given element type, to change them.
    pub fn groups_mut(&mut self, kt: ChannelKeyType) -> (r: &mut ChannelGroup)
        ensures
            *r == old(self).groups_of(kt),
            final(self).connectivity == old(self).connectivity,
            final(self).positions == old(self).positions,
            final(self).groups_of(kt) == *final(r),
            forall|k: ChannelKeyType| k != kt ==> #[trigger] final(self).groups_of(k) == old(self).groups_of(k),
    {
        match kt {
            ChannelKeyType::VertexId => &mut self.vertex_groups,
            ChannelKeyType::FaceId => &mut self.face_groups,
            ChannelKeyType::HalfEdgeId => &mut self.halfedge_groups,
        }
    }
}

/// The error that a failed resolution of a group selection turns into: a
/// reference to the group being made cannot be read while it is written.
pub open spec fn group_error_as(e: EditError, missing: Seq<char>, group_name: Seq<char>) -> bool {
    if missing == group_name {
        e matches EditError::Channel(ChannelError::Borrowed(n)) && n@ == missing
    } else {
        e matches EditError::Channel(ChannelError::NotFound(n)) && n@ == missing
    }
}

/// Creates a boolean channel named `group_name` over the elements of type
/// `kt`, true exactly for the elements that `selection` picks. Fails when a
/// group of that name exists; when the selection cannot be resolved, the
/// empty group is kept and the error returned.
pub fn make_group(mesh: &mut HalfEdgeMesh, kt: ChannelKeyType, selection: &SelectionExpression, group_name: &str) -> (r: Result<(), EditError>)
    requires
        old(mesh).well_formed(),
    ensures
        final(mesh).well_formed(),
        final(mesh).connectivity == old(mesh).connectivity,
        final(mesh).positions == old(mesh).positions,
        forall|k: ChannelKeyType| k != kt ==> #[trigger] final(mesh).groups_of(k) == old(mesh).groups_of(k),
        ({
            let g0 = old(mesh).groups_of(kt);
            let g1 = final(mesh).groups_of(kt);
            let n = g0.names().len();
            if name_index(g0.names(), group_name@) is Some {
                &&& r matches Err(EditError::Channel(ChannelError::AlreadyExists(x))) && x@ == group_name@
                &&& g1 == g0
            } else {
                &&& g1.names() == g0.names().push(group_name@)
                &&& g1.channels().len() == n + 1
                &&& g1.channels().subrange(0, n as int) == g0.channels()
                &&& g1.channels()[n as int].default == false
                &&& forall|res: Result<Seq<u64>, ChannelError>|
                    #[trigger] resolved_full(res, dom_of(old(mesh).connectivity@, kt), selection@, g0) ==> match res {
                        Ok(s) => r is Ok && forall|k: u64| #[trigger] g1.channels()[n as int].at(k) == s.contains(crate::halfedge::key_norm(k)),
                        Err(ChannelError::NotFound(x)) => (r matches Err(e) && group_error_as(e, x@, group_name@))
                            && forall|k: u64| !g1.channels()[n as int].values.dom().contains(k),
                        Err(_) => r is Err,
                    }
            }
        }),
{
    let ghost g0 = mesh.groups_of(kt);
    let ghost d = dom_of(mesh.connectivity@, kt);
    if mesh.groups(kt).channel_id(group_name).is_some() {
        return Err(EditError::Channel(ChannelError::AlreadyExists(String::from_str(group_name))));
    }
    let resolved = mesh.resolve_keys_full(kt, selection);
    let mapped: Result<Vec<u64>, EditError> = match resolved {
        Ok(ids) => Ok(ids),
        Err(ChannelError::NotFound(name)) => {
            let is_self = crate::graph::str_is(name.as_str(), group_name);
            if is_self {
                Err(EditError::Channel(ChannelError::Borrowed(name)))
            } else {
                Err(EditError::Channel(ChannelError::NotFound(name)))
            }
        },
        Err(e) => Err(EditError::Channel(e)),
    };
    proof {
        let keys = choose|keys: Seq<u64>| crate::mesh::in_slot_order(d, keys);
        assert(crate::mesh::in_slot_order(d, keys));
        if mapped is Ok {
            let ids = mapped->Ok_0;
            assert forall|t: int| 0 <= t < ids@.len() implies d.contains(#[trigger] ids@[t]) by {
                match selection@ {
                    SelectionView::All => {},
                    SelectionView::Empty => {},
                    SelectionView::Explicit(frags) => {
                        assert(ids@.contains(ids@[t]));
                        crate::mesh::lemma_resolve_keys_within(keys, frags, g0, ids@[t]);
                    },
                }
            }
        }
    }
    let groups = mesh.groups_mut(kt);
    let ch = match groups.create_channel(group_name) {
        Ok(ch) => ch,
        Err(e) => {
            return Err(EditError::Channel(e));
        },
    };
    let ghost n = g0.names().len();
    assert(ch as int == n);
    let ids = match mapped {
        Ok(ids) => ids,
        Err(e) => {
            return Err(e);
        },
    };
    // The channel's default is false: only the selected keys are set.
    let mut i: usize = 0;
    while i < ids.len()
        invariant
            groups.well_formed(),
            ch as int == n,
            groups.names() == g0.names().push(group_name@),
            groups.channels().len() == n + 1,
            groups.channels().subrange(0, n as int) == g0.channels(),
            groups.channels()[n as int].default == false,
            i <= ids@.len(),
            forall|t: int| 0 <= t < ids@.len() ==> d.contains(#[trigger] ids@[t]),
            forall|a: u64, b: u64| d.contains(a) && d.contains(b) && a != b ==> crate::halfedge::key_slot(a) != crate::halfedge::key_slot(b),
            forall|a: u64| d.contains(a) ==> crate::halfedge::key_norm(a) == a && crate::halfedge::key_slot(a) < 0xffff_ffff,
            forall|k: u64| #[trigger] groups.channels()[n as int].values.dom().contains(k) ==> exists|t: int| 0 <= t < i && ids@[t] == k,
            forall|t: int| 0 <= t < i ==> groups.channels()[n as int].values.get(#[trigger] ids@[t]) == Some(true),
        decreases ids@.len() - i,
    {
        let k = ids[i];
        let ghost before = groups.channels();
        groups.write(ch, k, true);
        proof {
            let after = groups.channels();
            assert(after.subrange(0, n as int) =~= g0.channels()) by {
                assert forall|t: int| 0 <= t < n implies after[t] == before[t] by {}
            }
            assert forall|kk: u64| #[trigger] after[n as int].values.dom().contains(kk) implies exists|t: int| 0 <= t < i + 1 && ids@[t] == kk by {
                if crate::halfedge::key_slot(kk) != crate::halfedge::key_slot(k) {
                    assert(before[n as int].values.get(kk) == after[n as int].values.get(kk));
                } else if kk != k {
                    assert(before[n as int].values.dom().contains(kk));
                } else {
                    assert(ids@[i as int] == kk);
                }
            }
            assert forall|t: int| 0 <= t < i + 1 implies after[n as int].values.get(#[trigger] ids@[t]) == Some(true) by {
                if t < i && ids@[t] != k {
                    assert(crate::halfedge::key_slot(ids@[t]) != crate::halfedge::key_slot(k));
                }
            }
        }
        i += 1;
    }
    proof {
        let c = groups.channels()[n as int];
        assert forall|k: u64| #[trigger] c.at(k) == ids@.contains(crate::halfedge::key_norm(k)) by {
            let kn = crate::halfedge::key_norm(k);
            if ids@.contains(kn) {
                let t = choose|t: int| 0 <= t < ids@.len() && ids@[t] == kn;
                assert(c.values.get(ids@[t]) == Some(true));
            } else if c.values.dom().contains(kn) {
                let t = choose|t: int| 0 <= t < ids@.len() && ids@[t] == kn;
                assert(false);
            }
        }
    }
    Ok(())
}


/// The groups of `a` and `b` are the same.
pub open spec fn same_groups(a: HalfEdgeMesh, b: HalfEdgeMesh) -> bool {
    &&& a.vertex_groups == b.vertex_groups
    &&& a.face_groups == b.face_groups
    &&& a.halfedge_groups == b.halfedge_groups
}

/// `b` is `a` with one more vertex, with no half-edge, at `pos`.
pub open spec fn vertex_added(a: HalfEdgeMesh, b: HalfEdgeMesh, pos: Vec3) -> bool {
    &&& b.well_formed()
    &&& a.connectivity@.links_valid() ==> b.connectivity@.links_valid()
    &&& exists|v: VertexId| {
        &&& !a.connectivity@.has_vertex(v)
        &&& b.connectivity@.vertices == a.connectivity@.vertices.insert(v.0, Vertex { halfedge: None })
        &&& b.positions.values() == a.positions.values().insert(v.0, pos)
    }
    &&& b.connectivity@.faces == a.connectivity@.faces
    &&& b.connectivity@.halfedges == a.connectivity@.halfedges
    &&& b.positions.default == a.positions.default
    &&& same_groups(b, a)
}

/// Adds a vertex with no half-edge at `pos`: a point of a point cloud.
pub fn add_vertex(this: &mut HalfEdgeMesh, pos: Vec3) -> (r: Result<(), EditError>)
    requires
        old(this).well_formed(),
        old(this).connectivity@.vertices.dom().len() + 3 < 0x1_0000_0000,
    ensures
        r is Ok,
        vertex_added(*old(this), *final(this), pos),
{
    let _v = this.alloc_vertex_at(pos);
    Ok(())
}

/// `b` is `a` with a disconnected edge added: new half-edges `h_src` and
/// `h_dst`, each the twin and the next of the other, from new vertices at
/// `start` and `end`.
pub open spec fn edge_added(a: HalfEdgeMesh, b: HalfEdgeMesh, h_src: HalfEdgeId, h_dst: HalfEdgeId, start: Vec3, end: Vec3) -> bool {
    let m = a.connectivity@;
    let v_src = b.connectivity@.halfedges[h_src.0].vertex->Some_0;
    let v_dst = b.connectivity@.halfedges[h_dst.0].vertex->Some_0;
    &&& b.well_formed()
    &&& m.links_valid() ==> b.connectivity@.links_valid()
    &&& !m.has_halfedge(h_src) && !m.has_halfedge(h_dst) && h_src != h_dst
    &&& !m.has_vertex(v_src) && !m.has_vertex(v_dst) && v_src != v_dst
    &&& b.connectivity@.halfedges == m.halfedges.insert(
        h_src.0,
        HalfEdge { twin: Some(h_dst), next: Some(h_dst), vertex: Some(v_src), face: None },
    ).insert(h_dst.0, HalfEdge { twin: Some(h_src), next: Some(h_src), vertex: Some(v_dst), face: None })
    &&& b.connectivity@.vertices == m.vertices.insert(v_src.0, Vertex { halfedge: Some(h_src) }).insert(
        v_dst.0,
        Vertex { halfedge: Some(h_dst) },
    )
    &&& b.connectivity@.faces == m.faces
    &&& b.positions.values() == a.positions.values().insert(v_src.0, start).insert(v_dst.0, end)
    &&& b.positions.default == a.positions.default
    &&& same_groups(b, a)
}

/// Adds a disconnected edge from a new vertex at `start` to a new vertex at
/// `end`: two half-edges, each the twin and the next of the other, on the
/// boundary. Returns the half-edge from `start` and the one from `end`.
pub fn add_edge(mesh: &mut HalfEdgeMesh, start: Vec3, end: Vec3) -> (r: Result<(HalfEdgeId, HalfEdgeId), EditError>)
    requires
        old(mesh).well_formed(),
        old(mesh).connectivity@.has_room(2),
    ensures
        r matches Ok((h_src, h_dst)) && edge_added(*old(mesh), *final(mesh), h_src, h_dst, start, end),
{
    let ghost m = mesh.connectivity@;
    let v_src = mesh.alloc_vertex_at(start);
    let v_dst = mesh.alloc_vertex_at(end);
    let h_src = mesh.connectivity.alloc_halfedge(HalfEdge::new_unlinked());
    let h_dst = mesh.connectivity.alloc_halfedge(HalfEdge::new_unlinked());
    mesh.connectivity.set_vertex(v_src, Vertex { halfedge: Some(h_src) });
    mesh.connectivity.set_vertex(v_dst, Vertex { halfedge: Some(h_dst) });
    mesh.connectivity.set_halfedge(h_src, HalfEdge { twin: Some(h_dst), next: Some(h_dst), vertex: Some(v_src), face: None });
    mesh.connectivity.set_halfedge(h_dst, HalfEdge { twin: Some(h_src), next: Some(h_src), vertex: Some(v_dst), face: None });
    proof {
        assert(mesh.connectivity@.halfedges =~= m.halfedges.insert(
            h_src.0,
            HalfEdge { twin: Some(h_dst), next: Some(h_dst), vertex: Some(v_src), face: None },
        ).insert(h_dst.0, HalfEdge { twin: Some(h_src), next: Some(h_src), vertex: Some(v_dst), face: None }));
        assert(mesh.connectivity@.vertices =~= m.vertices.insert(v_src.0, Vertex { halfedge: Some(h_src) }).insert(
            v_dst.0,
            Vertex { halfedge: Some(h_dst) },
        ));
    }
    Ok((h_src, h_dst))
}

/// `pc` is a point cloud of one new vertex per selected key, in order, each
/// at the position of the vertex it stands for in `positions`; the new
/// vertices' slots follow the order of the selection, so iterating the
/// cloud's vertices visits them in that order.
pub open spec fn point_cloud_of(pc: HalfEdgeMesh, selected: Seq<u64>, positions: crate::positions::Positions) -> bool {
    exists|ids: Seq<VertexId>| {
        &&& ids.len() == selected.len()
        &&& forall|i: int, j: int| 0 <= i < j < ids.len() ==> #[trigger] ids[i] != #[trigger] ids[j]
        &&& forall|i: int, j: int| 0 <= i < j < ids.len() ==> crate::halfedge::key_slot((#[trigger] ids[i]).0) < crate::halfedge::key_slot((#[trigger] ids[j]).0)
        &&& forall|k: u64| #[trigger] pc.connectivity@.vertices.dom().contains(k) <==> exists|i: int| 0 <= i < ids.len() && ids[i].0 == k
        &&& forall|i: int| 0 <= i < ids.len() ==> pc.connectivity@.vertices[(#[trigger] ids[i]).0] == Vertex { halfedge: None }
        &&& forall|i: int| 0 <= i < ids.len() ==> pc.positions.at((#[trigger] ids[i]).0) == positions.at(selected[i])
        &&& pc.connectivity@.faces == Map::<u64, Face>::empty()
        &&& pc.connectivity@.halfedges == Map::<u64, HalfEdge>::empty()
    }
}

/// A new mesh with one disconnected vertex for each vertex that `sel`
/// selects, at its position.
pub fn point_cloud(mesh: &HalfEdgeMesh, sel: SelectionExpression) -> (r: Result<HalfEdgeMesh, ChannelError>)
    requires
        mesh.well_formed(),
        forall|res: Result<Seq<u64>, ChannelError>|
            #[trigger] resolved_full(res, mesh.connectivity@.vertices.dom(), sel@, mesh.vertex_groups)
                ==> (res matches Ok(s) ==> s.len() + 3 < 0x1_0000_0000),
    ensures
        exists|res: Result<Seq<u64>, ChannelError>| {
            &&& resolved_full(res, mesh.connectivity@.vertices.dom(), sel@, mesh.vertex_groups)
            &&& match res {
                Ok(s) => r matches Ok(pc) && pc.well_formed() && point_cloud_of(pc, s, mesh.positions),
                Err(e) => r == Err::<HalfEdgeMesh, ChannelError>(e),
            }
        },
{
    let resolved = mesh.resolve_vertex_selection_full(&sel);
    let ghost res = crate::mesh::vertex_result(resolved);
    let vertices = match resolved {
        Ok(v) => v,
        Err(e) => {
            return Err(e);
        },
    };
    let mut new_mesh = HalfEdgeMesh::new();
    let ghost sel_keys = crate::mesh::vertex_keys(vertices@);
    proof {
        assert(resolved_full(res, mesh.connectivity@.vertices.dom(), sel@, mesh.vertex_groups));
    }
    let mut ids: Vec<VertexId> = Vec::new();
    let mut i: usize = 0;
    assert(new_mesh.connectivity@.vertices.dom() =~= Set::<u64>::empty());
    while i < vertices.len()
        invariant
            new_mesh.well_formed(),
            sel_keys == crate::mesh::vertex_keys(vertices@),
            i <= vertices@.len(),
            ids@.len() == i,
            vertices@.len() + 3 < 0x1_0000_0000,
            new_mesh.connectivity@.vertices.dom().len() == i,
            new_mesh.connectivity.vertices_packed(),
            forall|t: int| 0 <= t < ids@.len() ==> crate::halfedge::key_slot((#[trigger] ids@[t]).0) == t + 1,
            forall|a: int, b: int| 0 <= a < b < ids@.len() ==> #[trigger] ids@[a] != #[trigger] ids@[b],
            forall|k: u64| #[trigger] new_mesh.connectivity@.vertices.dom().contains(k) <==> exists|t: int| 0 <= t < ids@.len() && ids@[t].0 == k,
            forall|t: int| 0 <= t < ids@.len() ==> new_mesh.connectivity@.vertices[(#[trigger] ids@[t]).0] == (Vertex { halfedge: None }),
            forall|t: int| 0 <= t < ids@.len() ==> new_mesh.positions.at((#[trigger] ids@[t]).0) == mesh.positions.at(sel_keys[t]),
            new_mesh.connectivity@.faces == Map::<u64, Face>::empty(),
            new_mesh.connectivity@.halfedges == Map::<u64, HalfEdge>::empty(),
        decreases vertices@.len() - i,
    {
        let p = mesh.vertex_position(vertices[i]);
        let ghost before = new_mesh.connectivity@.vertices;
        let ghost old_ids = ids@;
        let v = new_mesh.alloc_vertex_at(p);
        ids.push(v);
        proof {
            assert forall|k: u64| #[trigger] new_mesh.connectivity@.vertices.dom().contains(k) <==> exists|t: int| 0 <= t < ids@.len() && ids@[t].0 == k by {
                if k == v.0 {
                    assert(ids@[i as int].0 == k);
                }
                if exists|t: int| 0 <= t < ids@.len() && ids@[t].0 == k {
                    let t = choose|t: int| 0 <= t < ids@.len() && ids@[t].0 == k;
                    if t < i {
                        assert(old_ids[t] == ids@[t]);
                    }
                }
                if new_mesh.connectivity@.vertices.dom().contains(k) && k != v.0 {
                    assert(before.dom().contains(k));
                    let t = choose|t: int| 0 <= t < old_ids.len() && old_ids[t].0 == k;
                    assert(ids@[t].0 == k);
                }
            }
            assert forall|a: int, b: int| 0 <= a < b < ids@.len() implies #[trigger] ids@[a] != #[trigger] ids@[b] by {
                if b == i {
                    assert(before.dom().contains(ids@[a].0));
                }
            }
            assert forall|t: int| 0 <= t < ids@.len() implies new_mesh.positions.at((#[trigger] ids@[t]).0) == mesh.positions.at(sel_keys[t]) by {
                if t < i {
                    assert(before.dom().contains(ids@[t].0));
                    assert(ids@[t].0 != v.0);
                }
            }
            assert forall|t: int| 0 <= t < ids@.len() implies new_mesh.connectivity@.vertices[(#[trigger] ids@[t]).0] == (Vertex { halfedge: None }) by {
                if t < i {
                    assert(before.dom().contains(ids@[t].0));
                }
            }
        }
        i += 1;
    }
    proof {
        assert(point_cloud_of(new_mesh, sel_keys, mesh.positions)) by {
            assert(ids@.len() == sel_keys.len());
            assert forall|a: int, b: int| 0 <= a < b < ids@.len() implies crate::halfedge::key_slot((#[trigger] ids@[a]).0) < crate::halfedge::key_slot((#[trigger] ids@[b]).0) by {
                assert(crate::halfedge::key_slot(ids@[a].0) == a + 1);
                assert(crate::halfedge::key_slot(ids@[b].0) == b + 1);
            }
        }
    }
    Ok(new_mesh)
}


impl HalfEdgeMesh {
    /// Adds a disconnected edge between new vertices at `start` and `end`.
    pub fn add_edge(&mut self, start: Vec3, end: Vec3) -> (r: Result<(HalfEdgeId, HalfEdgeId), EditError>)
        requires
            old(self).well_formed(),
            old(self).connectivity@.has_room(2),
        ensures
            r matches Ok((h_src, h_dst)) && edge_added(*old(self), *final(self), h_src, h_dst, start, end),
    {
        add_edge(self, start, end)
    }

    /// Adds a vertex with no half-edge at `pos`.
    pub fn add_vertex(&mut self, pos: Vec3) -> (r: Result<(), EditError>)
        requires
            old(self).well_formed(),
            old(self).connectivity@.vertices.dom().len() + 3 < 0x1_0000_0000,
        ensures
            r is Ok,
            vertex_added(*old(self), *final(self), pos),
    {
        add_vertex(self, pos)
    }

    /// A point cloud of the vertices that `sel` selects.
    pub fn point_cloud(&self, sel: SelectionExpression) -> (r: Result<HalfEdgeMesh, ChannelError>)
        requires
            self.well_formed(),
            forall|res: Result<Seq<u64>, ChannelError>|
                #[trigger] resolved_full(res, self.connectivity@.vertices.dom(), sel@, self.vertex_groups)
                    ==> (res matches Ok(s) ==> s.len() + 3 < 0x1_0000_0000),
        ensures
            exists|res: Result<Seq<u64>, ChannelError>| {
                &&& resolved_full(res, self.connectivity@.vertices.dom(), sel@, self.vertex_groups)
                &&& match res {
                    Ok(s) => r matches Ok(pc) && pc.well_formed() && point_cloud_of(pc, s, self.positions),
                    Err(e) => r == Err::<HalfEdgeMesh, ChannelError>(e),
                }
            },
    {
        point_cloud(self, sel)
    }
}


/// The outgoing half-edge of `v` that ends at `w`, if the fan of `v` can be
/// walked and has one.
pub open spec fn existing_edge(m: MeshView, v: VertexId, w: VertexId) -> Option<HalfEdgeId> {
    let out = match m.vertices[v.0].halfedge {
        Some(h) => crate::halfedge::walk_outcome(m, WalkKind::Fan, h.0),
        None => Ok(Seq::<HalfEdgeId>::empty()),
    };
    match out {
        Ok(s) => first_to(m, s, w),
        Err(_) => None,
    }
}

/// The position after `i` around a quad.
pub open spec fn nxt4(i: int) -> int {
    if i == 3 {
        0
    } else {
        i + 1
    }
}

/// The position before `i` around a quad.
pub open spec fn prv4(i: int) -> int {
    if i == 0 {
        3
    } else {
        i - 1
    }
}

/// The half-edge from `verts[i]` to the next vertex, if it exists.
pub open spec fn quad_a(m: MeshView, verts: Seq<VertexId>, i: int) -> Option<HalfEdgeId> {
    existing_edge(m, verts[i], verts[nxt4(i)])
}

/// The half-edge from the next vertex back to `verts[i]`, if it exists.
pub open spec fn quad_b(m: MeshView, verts: Seq<VertexId>, i: int) -> Option<HalfEdgeId> {
    existing_edge(m, verts[nxt4(i)], verts[i])
}

/// What `make_quad` needs of the mesh not to panic: the four vertices exist,
/// their fans can be walked, and the `next` loops of the half-edges of the
/// quad that exist close.
pub open spec fn quad_ready(m: MeshView, verts: Seq<VertexId>) -> bool {
    verts.len() == 4 ==> forall|i: int|
        0 <= i < 4 ==> {
            &&& m.has_vertex(#[trigger] verts[i])
            &&& (m.vertices[verts[i].0].halfedge matches Some(h) ==> crate::halfedge::walk_terminates(
                m,
                WalkKind::Fan,
                h.0,
            ))
            &&& (quad_a(m, verts, i) matches Some(x) ==> walk_cycles(m, WalkKind::Next, x.0))
        }
}

/// `a` and `b` are the half-edges of the quad: the existing ones, and fresh
/// distinct keys in place of the missing ones.
pub open spec fn quad_plan(m: MeshView, verts: Seq<VertexId>, a: Seq<HalfEdgeId>, b: Seq<HalfEdgeId>) -> bool {
    &&& a.len() == 4
    &&& b.len() == 4
    &&& forall|i: int| 0 <= i < 4 ==> match quad_a(m, verts, i) {
        Some(x) => #[trigger] a[i] == x && m.has_halfedge(x),
        None => !m.has_halfedge(a[i]),
    }
    &&& forall|i: int| 0 <= i < 4 ==> match quad_b(m, verts, i) {
        Some(x) => #[trigger] b[i] == x && m.has_halfedge(x),
        None => !m.has_halfedge(b[i]),
    }
    &&& forall|i: int, j: int| 0 <= i < 4 && 0 <= j < 4 && i != j && quad_a(m, verts, i) is None && quad_a(m, verts, j) is None ==> a[i] != a[j]
    &&& forall|i: int, j: int| 0 <= i < 4 && 0 <= j < 4 && i != j && quad_b(m, verts, i) is None && quad_b(m, verts, j) is None ==> b[i] != b[j]
    &&& forall|i: int, j: int| 0 <= i < 4 && 0 <= j < 4 && quad_a(m, verts, i) is None && quad_b(m, verts, j) is None ==> a[i] != b[j]
}

/// The half-edge map with the new half-edges of the plan added, unlinked.
pub open spec fn with_new_halfedges(m: MeshView, verts: Seq<VertexId>, a: Seq<HalfEdgeId>, b: Seq<HalfEdgeId>, n: int) -> Map<u64, HalfEdge>
    decreases n,
{
    if n <= 0 {
        m.halfedges
    } else {
        let p = with_new_halfedges(m, verts, a, b, n - 1);
        let i = n - 1;
        let u = HalfEdge { twin: None, next: None, vertex: None, face: None };
        let p1 = if quad_a(m, verts, i) is None {
            p.insert(a[i].0, u)
        } else {
            p
        };
        if quad_b(m, verts, i) is None {
            p1.insert(b[i].0, u)
        } else {
            p1
        }
    }
}

/// Step one: each existing `a[i]` has its former predecessor point to
/// `b[i - 1]`.
pub open spec fn quad_step_prev(m: MeshView, verts: Seq<VertexId>, a: Seq<HalfEdgeId>, b: Seq<HalfEdgeId>, hs: Map<u64, HalfEdge>, n: int) -> Map<u64, HalfEdge>
    decreases n,
{
    if n <= 0 {
        hs
    } else {
        let p = quad_step_prev(m, verts, a, b, hs, n - 1);
        let i = n - 1;
        if quad_a(m, verts, i) is Some {
            upd_next(p, prev_of(m, a[i]), b[prv4(i)])
        } else {
            p
        }
    }
}

/// The new `b[i]` data, read from the current map `p`.
pub open spec fn quad_b_data(m: MeshView, verts: Seq<VertexId>, a: Seq<HalfEdgeId>, b: Seq<HalfEdgeId>, p: Map<u64, HalfEdge>, i: int) -> HalfEdge {
    let cur = p[b[i].0];
    let existed = quad_b(m, verts, i) is Some;
    let next = if existed {
        cur.next
    } else if quad_a(m, verts, prv4(i)) is Some {
        p[a[prv4(i)].0].next
    } else {
        Some(b[prv4(i)])
    };
    HalfEdge {
        twin: Some(a[i]),
        vertex: Some(verts[nxt4(i)]),
        next: next,
        face: if existed {
            cur.face
        } else {
            None
        },
    }
}

/// Step two: the `b` half-edges get their twin, vertex, next and face.
pub open spec fn quad_step_b(m: MeshView, verts: Seq<VertexId>, a: Seq<HalfEdgeId>, b: Seq<HalfEdgeId>, hs: Map<u64, HalfEdge>, n: int) -> Map<u64, HalfEdge>
    decreases n,
{
    if n <= 0 {
        hs
    } else {
        let p = quad_step_b(m, verts, a, b, hs, n - 1);
        p.insert(b[n - 1].0, quad_b_data(m, verts, a, b, p, n - 1))
    }
}

/// Step three: the `a` half-edges form the loop of the new face `f`.
pub open spec fn quad_step_a(verts: Seq<VertexId>, a: Seq<HalfEdgeId>, b: Seq<HalfEdgeId>, f: FaceId, hs: Map<u64, HalfEdge>, n: int) -> Map<u64, HalfEdge>
    decreases n,
{
    if n <= 0 {
        hs
    } else {
        let p = quad_step_a(verts, a, b, f, hs, n - 1);
        let i = n - 1;
        p.insert(a[i].0, HalfEdge { next: Some(a[nxt4(i)]), twin: Some(b[i]), face: Some(f), vertex: Some(verts[i]) })
    }
}

/// The vertices each pointing to their `a` half-edge.
pub open spec fn quad_step_verts(verts: Seq<VertexId>, a: Seq<HalfEdgeId>, vs: Map<u64, Vertex>, n: int) -> Map<u64, Vertex>
    decreases n,
{
    if n <= 0 {
        vs
    } else {
        quad_step_verts(verts, a, vs, n - 1).insert(verts[n - 1].0, Vertex { halfedge: Some(a[n - 1]) })
    }
}

/// The mesh after `make_quad` with the plan `a`, `b` and the new face `f`.
pub open spec fn quad_result(m: MeshView, verts: Seq<VertexId>, a: Seq<HalfEdgeId>, b: Seq<HalfEdgeId>, f: FaceId) -> MeshView {
    let hs0 = with_new_halfedges(m, verts, a, b, 4);
    let hs1 = quad_step_prev(m, verts, a, b, hs0, 4);
    let hs2 = quad_step_b(m, verts, a, b, hs1, 4);
    let hs3 = quad_step_a(verts, a, b, f, hs2, 4);
    MeshView {
        vertices: quad_step_verts(verts, a, m.vertices, 4),
        faces: m.faces.insert(f.0, Face { halfedge: Some(a[0]) }),
        halfedges: hs3,
    }
}

/// The first existing `a` half-edge that is not on the boundary.
pub open spec fn first_inner_a(m: MeshView, verts: Seq<VertexId>, n: int) -> Option<HalfEdgeId>
    decreases n,
{
    if n <= 0 {
        None
    } else {
        match first_inner_a(m, verts, n - 1) {
            Some(x) => Some(x),
            None => match quad_a(m, verts, n - 1) {
                Some(x) => if m.halfedges[x.0].face is Some {
                    Some(x)
                } else {
                    None
                },
                None => None,
            },
        }
    }
}


/// A half-edge that `first_to` picks is one of the half-edges it looked at.
proof fn lemma_first_to_in(m: MeshView, s: Seq<HalfEdgeId>, w: VertexId)
    ensures
        first_to(m, s, w) matches Some(x) ==> s.contains(x),
    decreases s.len(),
{
    if s.len() > 0 && first_to(m, s, w) is Some {
        if crate::traversals::dst_of(m, s[0]) == Some(w) {
            assert(s[0] == s[0]);
        } else {
            lemma_first_to_in(m, s.drop_first(), w);
            let x = first_to(m, s, w)->Some_0;
            let j = choose|j: int| 0 <= j < s.drop_first().len() && s.drop_first()[j] == x;
            assert(s[j + 1] == x);
        }
    }
}

/// The existing half-edge between two vertices is in the mesh.
proof fn lemma_existing_edge_in_dom(m: MeshView, v: VertexId, w: VertexId)
    requires
        m.links_valid(),
        m.has_vertex(v),
    ensures
        existing_edge(m, v, w) matches Some(x) ==> m.has_halfedge(x),
{
    if let Some(h) = m.vertices[v.0].halfedge {
        assert(m.opt_halfedge_ok(m.vertices[v.0].halfedge));
        let out = crate::halfedge::walk_outcome(m, WalkKind::Fan, h.0);
        if let Ok(s) = out {
            lemma_first_to_in(m, s, w);
            if let Some(x) = first_to(m, s, w) {
                let j = choose|j: int| 0 <= j < s.len() && s[j] == x;
                assert(exists|n: nat| crate::halfedge::walk_returns_at(m, WalkKind::Fan, h.0, n));
                assert(s == cycle_seq(m, WalkKind::Fan, h.0));
                let n = crate::halfedge::cycle_len(m, WalkKind::Fan, h.0);
                assert(crate::halfedge::walk_returns_at(m, WalkKind::Fan, h.0, n));
                crate::halfedge::lemma_walk_in_dom(m, WalkKind::Fan, h.0, j as nat);
                assert(crate::halfedge::walk(m, WalkKind::Fan, h.0, j as nat) is Ok) by {
                    if crate::halfedge::walk(m, WalkKind::Fan, h.0, j as nat) is Err {
                        crate::halfedge::lemma_walk_error_sticks(m, WalkKind::Fan, h.0, j as nat, n);
                    }
                }
            }
        }
    }
}

/// Looks up the half-edges of the quad that exist, and the predecessors of
/// the existing `a` half-edges.
fn quad_lookup(conn: &MeshConnectivity, verts: &[VertexId]) -> (r: (Vec<Option<HalfEdgeId>>, Vec<Option<HalfEdgeId>>, Vec<HalfEdgeId>))
    requires
        conn.well_formed(),
        conn@.links_valid(),
        verts@.len() == 4,
        quad_ready(conn@, verts@),
    ensures
        r.0@.len() == 4,
        r.1@.len() == 4,
        r.2@.len() == 4,
        forall|t: int| 0 <= t < 4 ==> #[trigger] r.0@[t] == quad_a(conn@, verts@, t),
        forall|t: int| 0 <= t < 4 ==> #[trigger] r.1@[t] == quad_b(conn@, verts@, t),
        forall|t: int| 0 <= t < 4 && quad_a(conn@, verts@, t) is Some ==> #[trigger] r.2@[t] == prev_of(conn@, r.0@[t]->Some_0) && conn@.has_halfedge(r.2@[t]),
        forall|t: int| 0 <= t < 4 ==> (#[trigger] r.0@[t] matches Some(x) ==> conn@.has_halfedge(x)),
        forall|t: int| 0 <= t < 4 ==> (#[trigger] r.1@[t] matches Some(x) ==> conn@.has_halfedge(x)),
{
    let ghost m = conn@;
    let mut a_opt: Vec<Option<HalfEdgeId>> = Vec::new();
    let mut b_opt: Vec<Option<HalfEdgeId>> = Vec::new();
    let mut prevs: Vec<HalfEdgeId> = Vec::new();
    let mut i: usize = 0;
    while i < 4
        invariant
            conn@ == m,
            conn.well_formed(),
            m.links_valid(),
            verts@.len() == 4,
            quad_ready(m, verts@),
            i <= 4,
            a_opt@.len() == i,
            b_opt@.len() == i,
            prevs@.len() == i,
            forall|t: int| 0 <= t < i ==> #[trigger] a_opt@[t] == quad_a(m, verts@, t),
            forall|t: int| 0 <= t < i ==> #[trigger] b_opt@[t] == quad_b(m, verts@, t),
            forall|t: int| 0 <= t < i && quad_a(m, verts@, t) is Some ==> #[trigger] prevs@[t] == prev_of(m, a_opt@[t]->Some_0) && m.has_halfedge(prevs@[t]),
            forall|t: int| 0 <= t < i ==> (#[trigger] a_opt@[t] matches Some(x) ==> m.has_halfedge(x)),
            forall|t: int| 0 <= t < i ==> (#[trigger] b_opt@[t] matches Some(x) ==> m.has_halfedge(x)),
        decreases 4 - i,
    {
        let j: usize = if i == 3 {
            0
        } else {
            i + 1
        };
        let v1 = verts[i];
        let v2 = verts[j];
        assert(m.has_vertex(verts@[i as int]));
        assert(m.has_vertex(verts@[j as int]));
        let t1 = conn.at_vertex(v1);
        let ra = t1.halfedge_to(v2);
        let ao = match ra {
            Ok(x) => Some(x.location),
            Err(_) => None,
        };
        let t2 = conn.at_vertex(v2);
        let rb = t2.halfedge_to(v1);
        let bo = match rb {
            Ok(x) => Some(x.location),
            Err(_) => None,
        };
        proof {
            lemma_existing_edge_in_dom(m, v1, v2);
            lemma_existing_edge_in_dom(m, v2, v1);
            assert(ao == quad_a(m, verts@, i as int));
            assert(bo == quad_b(m, verts@, i as int));
        }
        let pv = match ao {
            Some(x) => {
                let lp = conn.halfedge_loop(x);
                proof {
                    crate::halfedge::lemma_walk_in_dom(m, WalkKind::Next, x.0, (lp@.len() - 1) as nat);
                }
                lp[lp.len() - 1]
            },
            None => HalfEdgeId(0),
        };
        a_opt.push(ao);
        b_opt.push(bo);
        prevs.push(pv);
        i += 1;
    }
    (a_opt, b_opt, prevs)
}

/// Creates the missing half-edges of the quad, unlinked.
fn quad_alloc(conn: &mut MeshConnectivity, verts: &[VertexId], a_opt: &Vec<Option<HalfEdgeId>>, b_opt: &Vec<Option<HalfEdgeId>>, Ghost(m): Ghost<MeshView>) -> (r: (Vec<HalfEdgeId>, Vec<HalfEdgeId>))
    requires
        old(conn).well_formed(),
        old(conn)@.halfedges == m.halfedges,
        m.halfedges.dom().len() + 11 < 0x1_0000_0000,
        verts@.len() == 4,
        a_opt@.len() == 4,
        b_opt@.len() == 4,
        forall|t: int| 0 <= t < 4 ==> #[trigger] a_opt@[t] == quad_a(m, verts@, t),
        forall|t: int| 0 <= t < 4 ==> #[trigger] b_opt@[t] == quad_b(m, verts@, t),
        forall|t: int| 0 <= t < 4 ==> (#[trigger] a_opt@[t] matches Some(x) ==> m.has_halfedge(x)),
        forall|t: int| 0 <= t < 4 ==> (#[trigger] b_opt@[t] matches Some(x) ==> m.has_halfedge(x)),
    ensures
        final(conn).well_formed(),
        old(conn)@.links_valid() ==> final(conn)@.links_valid(),
        final(conn)@.vertices == old(conn)@.vertices,
        final(conn)@.faces == old(conn)@.faces,
        quad_plan(m, verts@, r.0@, r.1@),
        final(conn)@.halfedges == with_new_halfedges(m, verts@, r.0@, r.1@, 4),
        forall|t: int| 0 <= t < 4 ==> final(conn)@.halfedges.dom().contains((#[trigger] r.0@[t]).0),
        forall|t: int| 0 <= t < 4 ==> final(conn)@.halfedges.dom().contains((#[trigger] r.1@[t]).0),
{
    let mut a: Vec<HalfEdgeId> = Vec::new();
    let mut b: Vec<HalfEdgeId> = Vec::new();
    let mut i: usize = 0;
    while i < 4
        invariant
            old(conn)@.links_valid() ==> conn@.links_valid(),
            conn.well_formed(),
            conn@.vertices == old(conn)@.vertices,
            conn@.faces == old(conn)@.faces,
            verts@.len() == 4,
            m.halfedges.dom().len() + 11 < 0x1_0000_0000,
            i <= 4,
            a_opt@.len() == 4,
            b_opt@.len() == 4,
            forall|t: int| 0 <= t < 4 ==> #[trigger] a_opt@[t] == quad_a(m, verts@, t),
            forall|t: int| 0 <= t < 4 ==> #[trigger] b_opt@[t] == quad_b(m, verts@, t),
            forall|t: int| 0 <= t < 4 ==> (#[trigger] a_opt@[t] matches Some(x) ==> m.has_halfedge(x)),
            forall|t: int| 0 <= t < 4 ==> (#[trigger] b_opt@[t] matches Some(x) ==> m.has_halfedge(x)),
            a@.len() == i,
            b@.len() == i,
            conn@.halfedges == with_new_halfedges(m, verts@, a@, b@, i as int),
            conn@.halfedges.dom().len() <= m.halfedges.dom().len() + 2 * i,
            forall|k: u64| m.halfedges.dom().contains(k) ==> conn@.halfedges.dom().contains(k),
            forall|t: int| 0 <= t < i ==> conn@.halfedges.dom().contains((#[trigger] a@[t]).0),
            forall|t: int| 0 <= t < i ==> conn@.halfedges.dom().contains((#[trigger] b@[t]).0),
            forall|k: u64| #[trigger] conn@.halfedges.dom().contains(k) && !m.halfedges.dom().contains(k) ==> exists|t: int|
                0 <= t < i && ((a@[t].0 == k && quad_a(m, verts@, t) is None) || (b@[t].0 == k && quad_b(m, verts@, t) is None)),
            forall|t: int| 0 <= t < i ==> match quad_a(m, verts@, t) {
                Some(x) => #[trigger] a@[t] == x && m.has_halfedge(x),
                None => !m.has_halfedge(a@[t]),
            },
            forall|t: int| 0 <= t < i ==> match quad_b(m, verts@, t) {
                Some(x) => #[trigger] b@[t] == x && m.has_halfedge(x),
                None => !m.has_halfedge(b@[t]),
            },
            forall|p: int, q: int| 0 <= p < i && 0 <= q < i && p != q && quad_a(m, verts@, p) is None && quad_a(m, verts@, q) is None ==> a@[p] != a@[q],
            forall|p: int, q: int| 0 <= p < i && 0 <= q < i && p != q && quad_b(m, verts@, p) is None && quad_b(m, verts@, q) is None ==> b@[p] != b@[q],
            forall|p: int, q: int| 0 <= p < i && 0 <= q < i && quad_a(m, verts@, p) is None && quad_b(m, verts@, q) is None ==> a@[p] != b@[q],
        decreases 4 - i,
    {
        let ghost before = conn@.halfedges;
        let ghost a0 = a@;
        let ghost b0 = b@;
        let ai = match a_opt[i] {
            Some(x) => x,
            None => conn.alloc_halfedge(HalfEdge::new_unlinked()),
        };
        let ghost mid = conn@.halfedges;
        let bi = match b_opt[i] {
            Some(x) => x,
            None => conn.alloc_halfedge(HalfEdge::new_unlinked()),
        };
        a.push(ai);
        b.push(bi);
        proof {
            assert forall|t: int| 0 <= t < i implies a@[t] == a0[t] && b@[t] == b0[t] by {}
            lemma_with_new_prefix(m, verts@, a0, b0, a@, b@, i as int);
            assert(conn@.halfedges =~= with_new_halfedges(m, verts@, a@, b@, i + 1));
            assert forall|k: u64| #[trigger] conn@.halfedges.dom().contains(k) && !m.halfedges.dom().contains(k) implies exists|t: int|
                0 <= t < i + 1 && ((a@[t].0 == k && quad_a(m, verts@, t) is None) || (b@[t].0 == k && quad_b(m, verts@, t) is None)) by {
                if before.dom().contains(k) {
                    let t = choose|t: int| 0 <= t < i && ((a0[t].0 == k && quad_a(m, verts@, t) is None) || (b0[t].0 == k && quad_b(m, verts@, t) is None));
                    assert(a@[t] == a0[t] && b@[t] == b0[t]);
                } else if mid.dom().contains(k) {
                    assert(a@[i as int].0 == k);
                } else {
                    assert(b@[i as int].0 == k);
                }
            }
            assert forall|p: int| 0 <= p < i implies {
                &&& (quad_a(m, verts@, p) is None && quad_a(m, verts@, i as int) is None ==> a@[p] != a@[i as int])
                &&& (quad_b(m, verts@, p) is None && quad_b(m, verts@, i as int) is None ==> b@[p] != b@[i as int])
                &&& (quad_a(m, verts@, p) is None && quad_b(m, verts@, i as int) is None ==> a@[p] != b@[i as int])
                &&& (quad_a(m, verts@, i as int) is None && quad_b(m, verts@, p) is None ==> a@[i as int] != b@[p])
            } by {
                assert(before.dom().contains(a@[p].0));
                assert(before.dom().contains(b@[p].0));
            }
            if quad_a(m, verts@, i as int) is None && quad_b(m, verts@, i as int) is None {
                assert(mid.dom().contains(a@[i as int].0));
                assert(a@[i as int] != b@[i as int]);
            }
        }
        i += 1;
    }
    (a, b)
}

/// What `make_quad` over `verts` does to `m`, giving `r` and `m2`: with four
/// vertices, a new face `f` and the half-edges `a`, `b` of the plan; the
/// quad when no reused half-edge has a face, else an error naming the first
/// that has one.
pub open spec fn quad_made(m: MeshView, verts: Seq<VertexId>, r: Result<(), EditError>, m2: MeshView) -> bool {
    &&& verts.len() != 4 ==> r == Err::<(), EditError>(EditError::NotAQuad) && m2 == m
    &&& verts.len() == 4 ==> exists|a: Seq<HalfEdgeId>, b: Seq<HalfEdgeId>, f: FaceId|
        #![trigger quad_plan(m, verts, a, b), m.faces.dom().contains(f.0)]
    {
        &&& quad_plan(m, verts, a, b)
        &&& !m.has_face(f)
        &&& match first_inner_a(m, verts, 4) {
            Some(x) => r == Err::<(), EditError>(EditError::NotInBoundary(x)) && m2 == MeshView {
                vertices: m.vertices,
                faces: m.faces.insert(f.0, Face { halfedge: None }),
                halfedges: with_new_halfedges(m, verts, a, b, 4),
            },
            None => r is Ok && m2 == quad_result(m, verts, a, b, f),
        }
    }
}

/// Adds a quad face over the four vertices `verts`, in order. Half-edges
/// between consecutive vertices are reused where they exist and created
/// where they do not; every reused half-edge of the new face must be on the
/// boundary. The face and the missing half-edges are made first, so they
/// stay, unlinked, when that check fails. The walks around the four
/// vertices and the existing sides must come back within as many steps as
/// the mesh has half-edges, else it fails with `OpenLoop` and leaves the
/// mesh as it was.
pub fn make_quad(conn: &mut MeshConnectivity, verts: &[VertexId]) -> (r: Result<(), EditError>)
    requires
        old(conn).well_formed(),
        old(conn)@.links_valid(),
        verts@.len() == 4 ==> forall|i: int| 0 <= i < 4 ==> old(conn)@.has_vertex(#[trigger] verts@[i]),
        old(conn)@.faces.dom().len() + 3 < 0x1_0000_0000,
        old(conn)@.halfedges.dom().len() + 11 < 0x1_0000_0000,
    ensures
        final(conn).well_formed(),
        final(conn)@.links_valid(),
        final(conn)@.vertices.dom() == old(conn)@.vertices.dom(),
        if verts@.len() == 4 && !quad_walks_within(old(conn)@, verts@, old(conn)@.halfedges.dom().len()) {
            r == Err::<(), EditError>(EditError::OpenLoop) && final(conn)@ == old(conn)@
        } else {
            quad_made(old(conn)@, verts@, r, final(conn)@)
        },
{
    if verts.len() == 4 && !check_quad_walks(conn, verts) {
        return Err(EditError::OpenLoop);
    }
    make_quad_within(conn, verts)
}

/// `make_quad` on a mesh whose walks around the quad end.
fn make_quad_within(conn: &mut MeshConnectivity, verts: &[VertexId]) -> (r: Result<(), EditError>)
    requires
        old(conn).well_formed(),
        old(conn)@.links_valid(),
        quad_ready(old(conn)@, verts@),
        old(conn)@.faces.dom().len() + 3 < 0x1_0000_0000,
        old(conn)@.halfedges.dom().len() + 11 < 0x1_0000_0000,
    ensures
        final(conn).well_formed(),
        final(conn)@.links_valid(),
        quad_made(old(conn)@, verts@, r, final(conn)@),
        final(conn)@.vertices.dom() == old(conn)@.vertices.dom(),
{
    if verts.len() != 4 {
        return Err(EditError::NotAQuad);
    }
    let ghost m = conn@;
    let (a_opt, b_opt, prevs) = quad_lookup(conn, verts);
    let face = conn.alloc_face(None);
    let (a, b) = quad_alloc(conn, verts, &a_opt, &b_opt, Ghost(m));
    let ghost m2 = conn@;
    assert(m2.links_valid());

    // If any of the reused half-edges already has a face, there is no quad.
    let mut i: usize = 0;
    while i < 4
        invariant
            conn@ == m2,
            m2.links_valid(),
            m == old(conn)@,
            conn.well_formed(),
            i <= 4,
            a@.len() == 4,
            a_opt@.len() == 4,
            verts@.len() == 4,
            m2.vertices == m.vertices,
            m2.faces == m.faces.insert(face.0, Face { halfedge: None }),
            !m.faces.dom().contains(face.0),
            quad_plan(m, verts@, a@, b@),
            m2.halfedges == with_new_halfedges(m, verts@, a@, b@, 4),
            forall|t: int| 0 <= t < 4 ==> m2.halfedges.dom().contains((#[trigger] a@[t]).0),
            first_inner_a(m, verts@, i as int) is None,
        decreases 4 - i,
    {
        let ai = a[i];
        proof {
            lemma_with_new_old(m, verts@, a@, b@, 4, ai.0);
            if quad_a(m, verts@, i as int) is None {
                lemma_with_new_fresh_a(m, verts@, a@, b@, 4, i as int);
            } else {
                assert(a@[i as int] == quad_a(m, verts@, i as int)->Some_0);
            }
        }
        if conn.halfedge(ai).face.is_some() {
            proof {
                assert(first_inner_a(m, verts@, i + 1) == Some(ai));
                lemma_first_inner_a_stays(m, verts@, i + 1);
                assert(!m.faces.dom().contains(face.0));
                let target = MeshView {
                    vertices: m.vertices,
                    faces: m.faces.insert(face.0, Face { halfedge: None }),
                    halfedges: with_new_halfedges(m, verts@, a@, b@, 4),
                };
                assert(conn@.vertices == target.vertices);
                assert(conn@.faces == target.faces);
                assert(conn@.halfedges == target.halfedges);
                assert(conn@ == target);
                assert(quad_plan(old(conn)@, verts@, a@, b@));
                assert(!old(conn)@.faces.dom().contains(face.0));
                assert(quad_made(m, verts@, Err(EditError::NotInBoundary(ai)), conn@));
            }
            return Err(EditError::NotInBoundary(ai));
        }
        proof {
            assert(first_inner_a(m, verts@, i + 1) == first_inner_a(m, verts@, i as int));
        }
        i += 1;
    }
    proof {
        assert(!m.faces.dom().contains(face.0));
    }
    let r = quad_link(conn, verts, &a_opt, &b_opt, &prevs, &a, &b, face, Ghost(m));
    proof {
        lemma_quad_verts_dom(m, verts@, a@, m.vertices, 4);
        assert(quad_plan(m, verts@, a@, b@) && m.faces.dom().contains(face.0) == false);
        assert(quad_made(m, verts@, r, conn@));
    }
    r
}

/// The walks that `make_quad` follows close within `limit` steps: the fans
/// of the four vertices, and the `next` loops of the half-edges of the quad
/// that exist, which come back to where they started.
pub open spec fn quad_walks_within(m: MeshView, verts: Seq<VertexId>, limit: nat) -> bool {
    forall|i: int|
        0 <= i < 4 ==> {
            &&& (m.vertices[(#[trigger] verts[i]).0].halfedge matches Some(h) ==> closes_within(m, WalkKind::Fan, h.0, limit))
            &&& (quad_a(m, verts, i) matches Some(x) ==> closes_within(m, WalkKind::Next, x.0, limit)
                && walk_outcome(m, WalkKind::Next, x.0) is Ok)
        }
}

/// Whether the walks of `make_quad` over `verts` close within as many steps
/// as the mesh has half-edges.
pub fn check_quad_walks(conn: &MeshConnectivity, verts: &[VertexId]) -> (r: bool)
    requires
        conn.well_formed(),
        conn@.links_valid(),
        verts@.len() == 4,
        forall|i: int| 0 <= i < 4 ==> conn@.has_vertex(#[trigger] verts@[i]),
    ensures
        r == quad_walks_within(conn@, verts@, conn@.halfedges.dom().len()),
        r ==> quad_ready(conn@, verts@),
{
    let ghost m = conn@;
    let limit = conn.num_halfedges();
    let ghost lim: nat = limit as nat;
    let mut i: usize = 0;
    while i < 4
        invariant
            conn@ == m,
            conn.well_formed(),
            m.links_valid(),
            verts@.len() == 4,
            forall|t: int| 0 <= t < 4 ==> m.has_vertex(#[trigger] verts@[t]),
            lim == m.halfedges.dom().len(),
            limit == lim,
            i <= 4,
            forall|t: int| 0 <= t < i ==> (m.vertices[(#[trigger] verts@[t]).0].halfedge matches Some(h) ==> closes_within(m, WalkKind::Fan, h.0, lim)),
        decreases 4 - i,
    {
        assert(m.has_vertex(verts@[i as int]));
        match conn.vertex(verts[i]).halfedge {
            Some(h) => {
                assert(m.opt_halfedge_ok(m.vertices[verts@[i as int].0].halfedge));
                if !conn.walk_closes_within(WalkKind::Fan, h, limit) {
                    assert(!quad_walks_within(m, verts@, lim)) by {
                        assert(verts@[i as int] == verts@[i as int]);
                    }
                    return false;
                }
            },
            None => {},
        }
        i += 1;
    }
    proof {
        assert forall|t: int| 0 <= t < 4 implies (m.vertices[(#[trigger] verts@[t]).0].halfedge matches Some(h) ==> walk_terminates(m, WalkKind::Fan, h.0)) by {
            if let Some(h) = m.vertices[verts@[t].0].halfedge {
                assert(closes_within(m, WalkKind::Fan, h.0, lim));
                let k = choose|k: nat| 1 <= k <= lim && #[trigger] walk_closes(m, WalkKind::Fan, h.0, k);
                assert(walk_closes(m, WalkKind::Fan, h.0, k));
            }
        }
    }
    let mut i: usize = 0;
    while i < 4
        invariant
            conn@ == m,
            conn.well_formed(),
            m.links_valid(),
            verts@.len() == 4,
            forall|t: int| 0 <= t < 4 ==> m.has_vertex(#[trigger] verts@[t]),
            lim == m.halfedges.dom().len(),
            limit == lim,
            i <= 4,
            forall|t: int| 0 <= t < 4 ==> (m.vertices[(#[trigger] verts@[t]).0].halfedge matches Some(h) ==> closes_within(m, WalkKind::Fan, h.0, lim)),
            forall|t: int| 0 <= t < 4 ==> (m.vertices[(#[trigger] verts@[t]).0].halfedge matches Some(h) ==> walk_terminates(m, WalkKind::Fan, h.0)),
            forall|t: int| 0 <= t < i ==> (#[trigger] quad_a(m, verts@, t) matches Some(x) ==> closes_within(m, WalkKind::Next, x.0, lim)
                && walk_outcome(m, WalkKind::Next, x.0) is Ok),
        decreases 4 - i,
    {
        let j: usize = if i == 3 {
            0
        } else {
            i + 1
        };
        let v1 = verts[i];
        let v2 = verts[j];
        assert(m.has_vertex(verts@[i as int]));
        assert(m.has_vertex(verts@[j as int]));
        let t1 = conn.at_vertex(v1);
        let ra = t1.halfedge_to(v2);
        let ao = match ra {
            Ok(x) => Some(x.location),
            Err(_) => None,
        };
        proof {
            lemma_existing_edge_in_dom(m, v1, v2);
            assert(ao == quad_a(m, verts@, i as int));
        }
        match ao {
            Some(x) => {
                if !conn.walk_closes_within(WalkKind::Next, x, limit) {
                    assert(!quad_walks_within(m, verts@, lim)) by {
                        assert(verts@[i as int] == verts@[i as int]);
                    }
                    return false;
                }
                proof {
                    let k = choose|k: nat| 1 <= k <= lim && #[trigger] walk_closes(m, WalkKind::Next, x.0, k);
                    assert(walk_closes(m, WalkKind::Next, x.0, k));
                }
                match conn.walk_cycle(WalkKind::Next, x) {
                    Ok(_) => {},
                    Err(_) => {
                        assert(!quad_walks_within(m, verts@, lim)) by {
                            assert(verts@[i as int] == verts@[i as int]);
                        }
                        return false;
                    },
                }
            },
            None => {},
        }
        i += 1;
    }
    proof {
        assert(quad_walks_within(m, verts@, lim)) by {
            assert forall|t: int| 0 <= t < 4 implies {
                &&& (m.vertices[(#[trigger] verts@[t]).0].halfedge matches Some(h) ==> closes_within(m, WalkKind::Fan, h.0, lim))
                &&& (quad_a(m, verts@, t) matches Some(x) ==> closes_within(m, WalkKind::Next, x.0, lim)
                    && walk_outcome(m, WalkKind::Next, x.0) is Ok)
            } by {
                assert(quad_a(m, verts@, t) == quad_a(m, verts@, t));
            }
        }
        assert forall|t: int| 0 <= t < 4 implies {
            &&& m.has_vertex(#[trigger] verts@[t])
            &&& (m.vertices[verts@[t].0].halfedge matches Some(h) ==> walk_terminates(m, WalkKind::Fan, h.0))
            &&& (quad_a(m, verts@, t) matches Some(x) ==> walk_cycles(m, WalkKind::Next, x.0))
        } by {
            if let Some(x) = quad_a(m, verts@, t) {
                assert(walk_outcome(m, WalkKind::Next, x.0) is Ok);
                assert(exists|n: nat| crate::halfedge::walk_returns_at(m, WalkKind::Next, x.0, n));
                let n = choose|n: nat| crate::halfedge::walk_returns_at(m, WalkKind::Next, x.0, n);
                assert(crate::halfedge::walk(m, WalkKind::Next, x.0, n) == Ok::<u64, TraversalError>(x.0));
            }
        }
    }
    true
}

/// Pointing the quad's vertices to their half-edges adds no vertex.
proof fn lemma_quad_verts_dom(m: MeshView, verts: Seq<VertexId>, a: Seq<HalfEdgeId>, vs: Map<u64, Vertex>, n: int)
    requires
        0 <= n <= 4,
        verts.len() == 4,
        quad_ready(m, verts),
        vs == m.vertices,
    ensures
        quad_step_verts(verts, a, vs, n).dom() == vs.dom(),
    decreases n,
{
    if n > 0 {
        lemma_quad_verts_dom(m, verts, a, vs, n - 1);
        assert(m.has_vertex(verts[n - 1]));
        assert(quad_step_verts(verts, a, vs, n).dom() =~= vs.dom());
    }
}

proof fn lemma_first_inner_a_stays(m: MeshView, verts: Seq<VertexId>, n: int)
    requires
        0 <= n <= 4,
        first_inner_a(m, verts, n) is Some,
    ensures
        first_inner_a(m, verts, 4) == first_inner_a(m, verts, n),
    decreases 4 - n,
{
    if n < 4 {
        lemma_first_inner_a_stays(m, verts, n + 1);
    }
}

/// Points the former predecessor of each reused `a[i]` to `b[i - 1]`.
fn quad_fix_prevs(
    conn: &mut MeshConnectivity,
    a_opt: &Vec<Option<HalfEdgeId>>,
    prevs: &Vec<HalfEdgeId>,
    a: &Vec<HalfEdgeId>,
    b: &Vec<HalfEdgeId>,
    Ghost(m): Ghost<MeshView>,
    Ghost(verts): Ghost<Seq<VertexId>>,
)
    requires
        old(conn).well_formed(),
        verts.len() == 4,
        a_opt@.len() == 4,
        prevs@.len() == 4,
        forall|t: int| 0 <= t < 4 ==> #[trigger] a_opt@[t] == quad_a(m, verts, t),
        forall|t: int| 0 <= t < 4 && quad_a(m, verts, t) is Some ==> #[trigger] prevs@[t] == prev_of(m, a_opt@[t]->Some_0) && m.has_halfedge(prevs@[t]),
        quad_plan(m, verts, a@, b@),
        forall|k: u64| m.halfedges.dom().contains(k) ==> old(conn)@.halfedges.dom().contains(k),
        forall|t: int| 0 <= t < 4 ==> old(conn)@.halfedges.dom().contains((#[trigger] b@[t]).0),
    ensures
        final(conn).well_formed(),
        old(conn)@.links_valid() ==> final(conn)@.links_valid(),
        final(conn)@.vertices == old(conn)@.vertices,
        final(conn)@.faces == old(conn)@.faces,
        final(conn)@.halfedges == quad_step_prev(m, verts, a@, b@, old(conn)@.halfedges, 4),
        final(conn)@.halfedges.dom() == old(conn)@.halfedges.dom(),
{
    let ghost hs0 = conn@.halfedges;
    let mut i: usize = 0;
    while i < 4
        invariant
            old(conn)@.links_valid() ==> conn@.links_valid(),
            forall|t: int| 0 <= t < 4 ==> hs0.dom().contains((#[trigger] b@[t]).0),
            conn.well_formed(),
            conn@.vertices == old(conn)@.vertices,
            conn@.faces == old(conn)@.faces,
            hs0 == old(conn)@.halfedges,
            i <= 4,
            a@.len() == 4,
            b@.len() == 4,
            a_opt@.len() == 4,
            prevs@.len() == 4,
            verts.len() == 4,
            conn@.halfedges.dom() == hs0.dom(),
            forall|t: int| 0 <= t < 4 ==> #[trigger] a_opt@[t] == quad_a(m, verts, t),
            forall|t: int| 0 <= t < 4 && quad_a(m, verts, t) is Some ==> #[trigger] prevs@[t] == prev_of(m, a_opt@[t]->Some_0) && m.has_halfedge(prevs@[t]),
            quad_plan(m, verts, a@, b@),
            forall|k: u64| m.halfedges.dom().contains(k) ==> hs0.dom().contains(k),
            conn@.halfedges == quad_step_prev(m, verts, a@, b@, hs0, i as int),
        decreases 4 - i,
    {
        if a_opt[i].is_some() {
            let pi: usize = if i == 0 {
                3
            } else {
                i - 1
            };
            proof {
                assert(a@[i as int] == a_opt@[i as int]->Some_0);
            }
            conn.set_next(prevs[i], Some(b[pi]));
        }
        proof {
            assert(conn@.halfedges.dom() =~= hs0.dom());
        }
        i += 1;
    }
}

/// Fills in the `b` half-edges: twin, vertex, and, for the new ones, the
/// next and the (boundary) face.
fn quad_fill_b(
    conn: &mut MeshConnectivity,
    verts: &[VertexId],
    a_opt: &Vec<Option<HalfEdgeId>>,
    b_opt: &Vec<Option<HalfEdgeId>>,
    a: &Vec<HalfEdgeId>,
    b: &Vec<HalfEdgeId>,
    Ghost(m): Ghost<MeshView>,
)
    requires
        old(conn).well_formed(),
        verts@.len() == 4,
        a_opt@.len() == 4,
        b_opt@.len() == 4,
        quad_plan(m, verts@, a@, b@),
        forall|t: int| 0 <= t < 4 ==> old(conn)@.halfedges.dom().contains((#[trigger] a@[t]).0),
        forall|t: int| 0 <= t < 4 ==> old(conn)@.halfedges.dom().contains((#[trigger] b@[t]).0),
        forall|t: int| 0 <= t < 4 ==> #[trigger] a_opt@[t] == quad_a(m, verts@, t),
        forall|t: int| 0 <= t < 4 ==> #[trigger] b_opt@[t] == quad_b(m, verts@, t),
        forall|t: int| 0 <= t < 4 && quad_a(m, verts@, t) is Some ==> (#[trigger] old(conn)@.halfedges[a@[t].0]).next is Some,
        forall|t: int| 0 <= t < 4 ==> old(conn)@.vertices.dom().contains((#[trigger] verts@[t]).0),
    ensures
        final(conn).well_formed(),
        old(conn)@.links_valid() ==> final(conn)@.links_valid(),
        final(conn)@.vertices == old(conn)@.vertices,
        final(conn)@.faces == old(conn)@.faces,
        final(conn)@.halfedges == quad_step_b(m, verts@, a@, b@, old(conn)@.halfedges, 4),
        final(conn)@.halfedges.dom() == old(conn)@.halfedges.dom(),
{
    let ghost hs1 = conn@.halfedges;
    let mut i: usize = 0;
    while i < 4
        invariant
            old(conn)@.links_valid() ==> conn@.links_valid(),
            forall|t: int| 0 <= t < 4 ==> conn@.vertices.dom().contains((#[trigger] verts@[t]).0),
            conn.well_formed(),
            conn@.vertices == old(conn)@.vertices,
            conn@.faces == old(conn)@.faces,
            hs1 == old(conn)@.halfedges,
            i <= 4,
            a@.len() == 4,
            b@.len() == 4,
            a_opt@.len() == 4,
            b_opt@.len() == 4,
            verts@.len() == 4,
            quad_plan(m, verts@, a@, b@),
            conn@.halfedges.dom() == hs1.dom(),
            forall|t: int| 0 <= t < 4 ==> hs1.dom().contains((#[trigger] a@[t]).0),
            forall|t: int| 0 <= t < 4 ==> hs1.dom().contains((#[trigger] b@[t]).0),
            forall|t: int| 0 <= t < 4 ==> #[trigger] a_opt@[t] == quad_a(m, verts@, t),
            forall|t: int| 0 <= t < 4 ==> #[trigger] b_opt@[t] == quad_b(m, verts@, t),
            forall|t: int| 0 <= t < 4 && quad_a(m, verts@, t) is Some ==> (#[trigger] conn@.halfedges[a@[t].0]).next is Some,
            conn@.halfedges == quad_step_b(m, verts@, a@, b@, hs1, i as int),
        decreases 4 - i,
    {
        let pi: usize = if i == 0 {
            3
        } else {
            i - 1
        };
        let ni: usize = if i == 3 {
            0
        } else {
            i + 1
        };
        let cur = conn.halfedge(b[i]);
        let next = if b_opt[i].is_some() {
            cur.next
        } else if a_opt[pi].is_some() {
            Some(conn.halfedge(a[pi]).next.unwrap())
        } else {
            Some(b[pi])
        };
        let face_b = if b_opt[i].is_some() {
            cur.face
        } else {
            None
        };
        let ghost p = conn@.halfedges;
        conn.set_halfedge(b[i], HalfEdge { twin: Some(a[i]), vertex: Some(verts[ni]), next, face: face_b });
        proof {
            assert(quad_b_data(m, verts@, a@, b@, p, i as int) == HalfEdge { twin: Some(a@[i as int]), vertex: Some(verts@[ni as int]), next, face: face_b });
            assert(conn@.halfedges.dom() =~= hs1.dom());
            assert forall|t: int| 0 <= t < 4 && quad_a(m, verts@, t) is Some implies (#[trigger] conn@.halfedges[a@[t].0]).next is Some by {
                if a@[t] == b@[i as int] {
                    if b_opt@[i as int] is None {
                        assert(a@[t] == quad_a(m, verts@, t)->Some_0);
                        assert(!m.has_halfedge(b@[i as int]));
                        assert(m.has_halfedge(a@[t]));
                    }
                }
            }
        }
        i += 1;
    }
}

/// Makes the `a` half-edges the loop of the face `face`.
fn quad_fill_a(conn: &mut MeshConnectivity, verts: &[VertexId], a: &Vec<HalfEdgeId>, b: &Vec<HalfEdgeId>, face: FaceId)
    requires
        old(conn).well_formed(),
        verts@.len() == 4,
        a@.len() == 4,
        b@.len() == 4,
        forall|t: int| 0 <= t < 4 ==> old(conn)@.halfedges.dom().contains((#[trigger] a@[t]).0),
        forall|t: int| 0 <= t < 4 ==> old(conn)@.halfedges.dom().contains((#[trigger] b@[t]).0),
        forall|t: int| 0 <= t < 4 ==> old(conn)@.vertices.dom().contains((#[trigger] verts@[t]).0),
        old(conn)@.faces.dom().contains(face.0),
    ensures
        final(conn).well_formed(),
        old(conn)@.links_valid() ==> final(conn)@.links_valid(),
        final(conn)@.vertices == old(conn)@.vertices,
        final(conn)@.faces == old(conn)@.faces,
        final(conn)@.halfedges == quad_step_a(verts@, a@, b@, face, old(conn)@.halfedges, 4),
        final(conn)@.halfedges.dom() == old(conn)@.halfedges.dom(),
{
    let ghost hs2 = conn@.halfedges;
    let mut i: usize = 0;
    while i < 4
        invariant
            old(conn)@.links_valid() ==> conn@.links_valid(),
            forall|t: int| 0 <= t < 4 ==> hs2.dom().contains((#[trigger] b@[t]).0),
            forall|t: int| 0 <= t < 4 ==> conn@.vertices.dom().contains((#[trigger] verts@[t]).0),
            conn@.faces.dom().contains(face.0),
            conn.well_formed(),
            conn@.vertices == old(conn)@.vertices,
            conn@.faces == old(conn)@.faces,
            hs2 == old(conn)@.halfedges,
            i <= 4,
            a@.len() == 4,
            b@.len() == 4,
            verts@.len() == 4,
            conn@.halfedges.dom() == hs2.dom(),
            forall|t: int| 0 <= t < 4 ==> hs2.dom().contains((#[trigger] a@[t]).0),
            conn@.halfedges == quad_step_a(verts@, a@, b@, face, hs2, i as int),
        decreases 4 - i,
    {
        let ni: usize = if i == 3 {
            0
        } else {
            i + 1
        };
        conn.set_halfedge(a[i], HalfEdge { next: Some(a[ni]), twin: Some(b[i]), face: Some(face), vertex: Some(verts[i]) });
        proof {
            assert(conn@.halfedges.dom() =~= hs2.dom());
        }
        i += 1;
    }
}

/// Links the quad: fixes the predecessors of the reused `a` half-edges,
/// fills in the `b` and `a` half-edges, the face and the vertices.
#[verifier::spinoff_prover]
#[verifier::rlimit(40)]
fn quad_link(
    conn: &mut MeshConnectivity,
    verts: &[VertexId],
    a_opt: &Vec<Option<HalfEdgeId>>,
    b_opt: &Vec<Option<HalfEdgeId>>,
    prevs: &Vec<HalfEdgeId>,
    a: &Vec<HalfEdgeId>,
    b: &Vec<HalfEdgeId>,
    face: FaceId,
    Ghost(m): Ghost<MeshView>,
) -> (r: Result<(), EditError>)
    requires
        old(conn).well_formed(),
        verts@.len() == 4,
        quad_ready(m, verts@),
        a_opt@.len() == 4,
        b_opt@.len() == 4,
        prevs@.len() == 4,
        forall|t: int| 0 <= t < 4 ==> #[trigger] a_opt@[t] == quad_a(m, verts@, t),
        forall|t: int| 0 <= t < 4 ==> #[trigger] b_opt@[t] == quad_b(m, verts@, t),
        forall|t: int| 0 <= t < 4 && quad_a(m, verts@, t) is Some ==> #[trigger] prevs@[t] == prev_of(m, a_opt@[t]->Some_0) && m.has_halfedge(prevs@[t]),
        quad_plan(m, verts@, a@, b@),
        old(conn)@.halfedges == with_new_halfedges(m, verts@, a@, b@, 4),
        old(conn)@.vertices == m.vertices,
        old(conn)@.faces == m.faces.insert(face.0, Face { halfedge: None }),
        forall|t: int| 0 <= t < 4 ==> old(conn)@.halfedges.dom().contains((#[trigger] a@[t]).0),
        forall|t: int| 0 <= t < 4 ==> old(conn)@.halfedges.dom().contains((#[trigger] b@[t]).0),
        first_inner_a(m, verts@, 4) is None,
    ensures
        final(conn).well_formed(),
        old(conn)@.links_valid() ==> final(conn)@.links_valid(),
        r is Ok,
        final(conn)@ == quad_result(m, verts@, a@, b@, face),
{
    let ghost hs0 = conn@.halfedges;
    proof {
        assert forall|k: u64| m.halfedges.dom().contains(k) implies hs0.dom().contains(k) by {
            lemma_with_new_old(m, verts@, a@, b@, 4, k);
        }
    }
    quad_fix_prevs(conn, a_opt, prevs, a, b, Ghost(m), Ghost(verts@));
    let ghost hs1 = conn@.halfedges;
    proof {
        assert forall|t: int| 0 <= t < 4 && quad_a(m, verts@, t) is Some implies (#[trigger] hs1[a@[t].0]).next is Some by {
            let x = a@[t];
            assert(x == quad_a(m, verts@, t)->Some_0);
            assert(walk_cycles(m, WalkKind::Next, x.0));
            lemma_cycles_has_next(m, x.0);
            lemma_with_new_old(m, verts@, a@, b@, 4, x.0);
            lemma_step_prev_keeps_next(m, verts@, a@, b@, hs0, 4, x.0);
        }
    }
    proof {
        assert forall|t: int| 0 <= t < 4 implies conn@.vertices.dom().contains((#[trigger] verts@[t]).0) by {
            assert(m.has_vertex(verts@[t]));
        }
    }
    quad_fill_b(conn, verts, a_opt, b_opt, a, b, Ghost(m));
    quad_fill_a(conn, verts, a, b, face);
    proof {
        assert(conn@.halfedges.dom().contains(a@[0].0));
    }
    let ghost m2 = conn@;
    proof {
        assert(m2.faces.dom().contains(face.0));
    }
    conn.set_face(face, Face { halfedge: Some(a[0]) });
    let mut i: usize = 0;
    while i < 4
        invariant
            old(conn)@.links_valid() ==> conn@.links_valid(),
            forall|t: int| 0 <= t < 4 ==> conn@.halfedges.dom().contains((#[trigger] a@[t]).0),
            conn.well_formed(),
            i <= 4,
            a@.len() == 4,
            verts@.len() == 4,
            quad_ready(m, verts@),
            conn@.vertices.dom() == m.vertices.dom(),
            conn@.vertices == quad_step_verts(verts@, a@, m.vertices, i as int),
            conn@.halfedges == m2.halfedges,
            conn@.faces == m.faces.insert(face.0, Face { halfedge: Some(a@[0]) }),
        decreases 4 - i,
    {
        assert(m.has_vertex(verts@[i as int]));
        conn.set_vertex(verts[i], Vertex { halfedge: Some(a[i]) });
        proof {
            assert(conn@.vertices.dom() =~= m.vertices.dom());
        }
        i += 1;
    }
    Ok(())
}

/// Fixing the predecessors only sets `next` pointers to some half-edge.
proof fn lemma_step_prev_keeps_next(m: MeshView, verts: Seq<VertexId>, a: Seq<HalfEdgeId>, b: Seq<HalfEdgeId>, hs: Map<u64, HalfEdge>, n: int, k: u64)
    requires
        hs.dom().contains(k),
        hs[k].next is Some,
    ensures
        quad_step_prev(m, verts, a, b, hs, n).dom().contains(k),
        quad_step_prev(m, verts, a, b, hs, n)[k].next is Some,
    decreases n,
{
    if n > 0 {
        lemma_step_prev_keeps_next(m, verts, a, b, hs, n - 1, k);
    }
}

proof fn lemma_with_new_prefix(m: MeshView, verts: Seq<VertexId>, a0: Seq<HalfEdgeId>, b0: Seq<HalfEdgeId>, a1: Seq<HalfEdgeId>, b1: Seq<HalfEdgeId>, n: int)
    requires
        forall|t: int| 0 <= t < n ==> a0[t] == a1[t] && b0[t] == b1[t],
    ensures
        with_new_halfedges(m, verts, a0, b0, n) == with_new_halfedges(m, verts, a1, b1, n),
    decreases n,
{
    if n > 0 {
        lemma_with_new_prefix(m, verts, a0, b0, a1, b1, n - 1);
    }
}

/// Adding the new half-edges keeps the old ones as they are.
proof fn lemma_with_new_old(m: MeshView, verts: Seq<VertexId>, a: Seq<HalfEdgeId>, b: Seq<HalfEdgeId>, n: int, k: u64)
    requires
        forall|t: int| 0 <= t < n && quad_a(m, verts, t) is None ==> !m.has_halfedge(#[trigger] a[t]),
        forall|t: int| 0 <= t < n && quad_b(m, verts, t) is None ==> !m.has_halfedge(#[trigger] b[t]),
    ensures
        m.halfedges.dom().contains(k) ==> with_new_halfedges(m, verts, a, b, n).dom().contains(k)
            && with_new_halfedges(m, verts, a, b, n)[k] == m.halfedges[k],
        !m.halfedges.dom().contains(k) && with_new_halfedges(m, verts, a, b, n).dom().contains(k)
            ==> with_new_halfedges(m, verts, a, b, n)[k] == (HalfEdge { twin: None, next: None, vertex: None, face: None }),
    decreases n,
{
    if n > 0 {
        lemma_with_new_old(m, verts, a, b, n - 1, k);
        let i = n - 1;
        if quad_a(m, verts, i) is None {
            assert(!m.has_halfedge(a[i]));
        }
        if quad_b(m, verts, i) is None {
            assert(!m.has_halfedge(b[i]));
        }
    }
}

/// A new `a` half-edge is in the map, unlinked.
proof fn lemma_with_new_fresh_a(m: MeshView, verts: Seq<VertexId>, a: Seq<HalfEdgeId>, b: Seq<HalfEdgeId>, n: int, i: int)
    requires
        0 <= i < n,
        quad_a(m, verts, i) is None,
        !m.has_halfedge(a[i]),
        forall|t: int| 0 <= t < n && quad_a(m, verts, t) is None ==> !m.has_halfedge(#[trigger] a[t]),
        forall|t: int| 0 <= t < n && quad_b(m, verts, t) is None ==> !m.has_halfedge(#[trigger] b[t]),
    ensures
        with_new_halfedges(m, verts, a, b, n).dom().contains(a[i].0),
        with_new_halfedges(m, verts, a, b, n)[a[i].0].face is None,
    decreases n,
{
    lemma_with_new_old(m, verts, a, b, n, a[i].0);
    if i < n - 1 {
        lemma_with_new_fresh_a(m, verts, a, b, n - 1, i);
        lemma_with_new_dom_grows(m, verts, a, b, n, a[i].0);
    }
}

proof fn lemma_with_new_dom_grows(m: MeshView, verts: Seq<VertexId>, a: Seq<HalfEdgeId>, b: Seq<HalfEdgeId>, n: int, k: u64)
    requires
        n > 0,
        with_new_halfedges(m, verts, a, b, n - 1).dom().contains(k),
    ensures
        with_new_halfedges(m, verts, a, b, n).dom().contains(k),
{
}

} // verus!
