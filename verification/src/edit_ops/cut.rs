//! Cutting a face in two with a new edge between two of its vertices.
use vstd::prelude::*;

use crate::edit_ops::{faces_set, with_next, EditError};
use crate::edit_ops::dissolve::outgoing_of;
use crate::halfedge::{
    closes_within, walk_terminates, Face, FaceId, HalfEdge, HalfEdgeId, MeshConnectivity, MeshView, VertexId, WalkKind,
};
use crate::mesh::{face_loop, face_loop_ok, face_within};
use crate::edit_ops::collapse::{is_refusal, lemma_outcome_error_plain};
use crate::traversals::{first_to, map_vertices, present_faces, AnyTraversal, TraversalError, VertexTraversalHelpers};

verus! {

/// The first of the faces `fs` whose vertices include `w`.
pub open spec fn first_face_with(m: MeshView, fs: Seq<FaceId>, w: VertexId) -> Option<FaceId>
    decreases fs.len(),
{
    if fs.len() == 0 {
        None
    } else if map_vertices(m, face_loop(m, fs[0])) matches Ok(vs) && vs.contains(w) {
        Some(fs[0])
    } else {
        first_face_with(m, fs.drop_first(), w)
    }
}

/// Looking for the face runs only over faces whose loops close and whose
/// half-edges all have a vertex.
pub open spec fn faces_readable(m: MeshView, fs: Seq<FaceId>, w: VertexId) -> bool
    decreases fs.len(),
{
    if fs.len() == 0 {
        true
    } else {
        &&& face_within(m, fs[0])
        &&& map_vertices(m, face_loop(m, fs[0])) is Ok
        &&& (!map_vertices(m, face_loop(m, fs[0]))->Ok_0.contains(w) ==> faces_readable(m, fs.drop_first(), w))
    }
}

/// The first position in `hs` of a half-edge leaving `v`.
pub open spec fn index_from(m: MeshView, hs: Seq<HalfEdgeId>, v: VertexId) -> int
    decreases hs.len(),
{
    if hs.len() == 0 {
        0
    } else if m.halfedges[hs[0].0].vertex == Some(v) {
        0
    } else {
        1 + index_from(m, hs.drop_first(), v)
    }
}

/// `v` leaves some half-edge of `hs`.
pub open spec fn leaves_some(m: MeshView, hs: Seq<HalfEdgeId>, v: VertexId) -> bool {
    exists|k: int| 0 <= k < hs.len() && #[trigger] m.halfedges[hs[k].0].vertex == Some(v)
}

/// The half-edges of the face loop `fh` from position `s` to `e`, wrapping
/// around.
pub open spec fn loop_span(fh: Seq<HalfEdgeId>, s: int, e: int) -> Seq<HalfEdgeId> {
    Seq::new((e - s + 1) as nat, |k: int| fh[(s + k) % (fh.len() as int)])
}

/// The face that `cut_face` on `v`, `w` cuts, if the lookups succeed.
pub open spec fn cut_face_of(m: MeshView, v: VertexId, w: VertexId) -> Result<FaceId, EditError> {
    match outgoing_of(m, v) {
        Err(e) => Err(EditError::Traversal(e)),
        Ok(out) => match first_face_with(m, present_faces(m, out), w) {
            None => Err(EditError::NoSharedFace),
            Some(f) => if first_to(m, out, w) is Some {
                Err(EditError::AlreadyAdjacent)
            } else if face_loop(m, f).len() <= 3 {
                Err(EditError::FaceTooSmall)
            } else {
                Ok(f)
            },
        },
    }
}

/// The mesh after cutting face `f` between `v` and `w` with the new
/// half-edges `a` (from `v`, staying in `f`) and `b` (from `w`, in the new
/// face `nf`): the part of the loop from `v` to just before `w` moves to
/// `nf`.
pub open spec fn cut_result(m: MeshView, f: FaceId, v: VertexId, w: VertexId, a: HalfEdgeId, b: HalfEdgeId, nf: FaceId) -> MeshView {
    let fh = face_loop(m, f);
    let n = fh.len() as int;
    let vi = index_from(m, fh, v);
    let wi = index_from(m, fh, w);
    let vp = fh[(vi - 1 + n) % n];
    let wp = fh[(wi - 1 + n) % n];
    let e0 = (wi - 1 + n) % n;
    let e = if e0 < vi {
        e0 + n
    } else {
        e0
    };
    let hs1 = m.halfedges.insert(a.0, HalfEdge { twin: Some(b), next: Some(fh[wi]), vertex: Some(v), face: Some(f) }).insert(
        b.0,
        HalfEdge { twin: Some(a), next: Some(fh[vi]), vertex: Some(w), face: Some(nf) },
    );
    let hs2 = hs1.insert(vp.0, with_next(hs1[vp.0], Some(a)));
    let hs3 = hs2.insert(wp.0, with_next(hs2[wp.0], Some(b)));
    MeshView {
        vertices: m.vertices,
        faces: m.faces.insert(nf.0, Face { halfedge: Some(b) }).insert(f.0, Face { halfedge: Some(a) }),
        halfedges: faces_set(hs3, loop_span(fh, vi, e), Some(nf)),
    }
}

/// `cut_face` on `v`, `w` reads only what exists: the fan of `v` comes
/// back within as many steps as the mesh has half-edges, the faces it looks
/// through are readable, and both vertices are on the face it cuts.
pub open spec fn cut_ready(m: MeshView, v: VertexId, w: VertexId) -> bool {
    &&& m.has_vertex(v)
    &&& (m.vertices[v.0].halfedge matches Some(h) ==> closes_within(m, WalkKind::Fan, h.0, m.halfedges.dom().len()))
    &&& (outgoing_of(m, v) matches Ok(out) ==> faces_readable(m, present_faces(m, out), w))
    &&& (cut_face_of(m, v, w) matches Ok(f) ==> leaves_some(m, face_loop(m, f), v) && face_loop(m, f).len() < 0x8000_0000)
}

proof fn lemma_first_face_skip(m: MeshView, fs: Seq<FaceId>, w: VertexId, i: int)
    requires
        0 <= i <= fs.len(),
        forall|j: int| 0 <= j < i ==> !(map_vertices(m, face_loop(m, #[trigger] fs[j])) matches Ok(vs) && vs.contains(w)),
    ensures
        first_face_with(m, fs, w) == first_face_with(m, fs.skip(i), w),
    decreases i,
{
    if i > 0 {
        assert(!(map_vertices(m, face_loop(m, fs[0])) matches Ok(vs) && vs.contains(w)));
        assert forall|j: int| 0 <= j < i - 1 implies !(map_vertices(m, face_loop(m, #[trigger] fs.drop_first()[j])) matches Ok(vs) && vs.contains(w)) by {
            assert(fs.drop_first()[j] == fs[j + 1]);
        }
        lemma_first_face_skip(m, fs.drop_first(), w, i - 1);
        assert(fs.drop_first().skip(i - 1) =~= fs.skip(i));
    } else {
        assert(fs.skip(0) =~= fs);
    }
}

proof fn lemma_readable_skip(m: MeshView, fs: Seq<FaceId>, w: VertexId, i: int)
    requires
        0 <= i < fs.len(),
        faces_readable(m, fs.skip(i), w),
        !(map_vertices(m, face_loop(m, fs[i])) matches Ok(vs) && vs.contains(w)),
    ensures
        faces_readable(m, fs.skip(i + 1), w),
{
    assert(fs.skip(i)[0] == fs[i]);
    assert(fs.skip(i).drop_first() =~= fs.skip(i + 1));
}

proof fn lemma_index_from(m: MeshView, hs: Seq<HalfEdgeId>, v: VertexId, k: int)
    requires
        0 <= k < hs.len(),
        forall|j: int| 0 <= j < k ==> m.halfedges[(#[trigger] hs[j]).0].vertex != Some(v),
        m.halfedges[hs[k].0].vertex == Some(v),
    ensures
        index_from(m, hs, v) == k,
    decreases k,
{
    if k > 0 {
        assert forall|j: int| 0 <= j < k - 1 implies m.halfedges[(#[trigger] hs.drop_first()[j]).0].vertex != Some(v) by {
            assert(hs.drop_first()[j] == hs[j + 1]);
        }
        assert(hs[0] == hs[0]);
        lemma_index_from(m, hs.drop_first(), v, k - 1);
    }
}

proof fn lemma_map_vertices_leaves(m: MeshView, s: Seq<HalfEdgeId>, x: VertexId)
    requires
        map_vertices(m, s) matches Ok(vs) && vs.contains(x),
    ensures
        leaves_some(m, s, x),
    decreases s.len(),
{
    let vs = map_vertices(m, s)->Ok_0;
    let t = map_vertices(m, s.drop_last())->Ok_0;
    assert(vs == t.push(m.halfedges[s.last().0].vertex->Some_0));
    if t.contains(x) {
        lemma_map_vertices_leaves(m, s.drop_last(), x);
        let k = choose|k: int| 0 <= k < s.drop_last().len() && #[trigger] m.halfedges[s.drop_last()[k].0].vertex == Some(x);
        assert(s[k] == s.drop_last()[k]);
    } else {
        let j = choose|j: int| 0 <= j < vs.len() && vs[j] == x;
        assert(j == vs.len() - 1);
        assert(m.halfedges[s[s.len() - 1].0].vertex == Some(x));
    }
}

/// Whether `v` leaves some half-edge of `hs`.
fn leaves_check(mesh: &MeshConnectivity, hs: &Vec<HalfEdgeId>, v: VertexId) -> (r: bool)
    requires
        mesh.well_formed(),
        forall|i: int| 0 <= i < hs@.len() ==> mesh@.has_halfedge(#[trigger] hs@[i]),
    ensures
        r == leaves_some(mesh@, hs@, v),
{
    let mut k: usize = 0;
    while k < hs.len()
        invariant
            mesh.well_formed(),
            k <= hs@.len(),
            forall|i: int| 0 <= i < hs@.len() ==> mesh@.has_halfedge(#[trigger] hs@[i]),
            forall|j: int| 0 <= j < k ==> mesh@.halfedges[(#[trigger] hs@[j]).0].vertex != Some(v),
        decreases hs@.len() - k,
    {
        if mesh.halfedge(hs[k]).vertex == Some(v) {
            return true;
        }
        k += 1;
    }
    false
}

/// The first position in `hs` of a half-edge leaving `v`, which must exist.
fn position_of(mesh: &MeshConnectivity, hs: &Vec<HalfEdgeId>, v: VertexId) -> (r: usize)
    requires
        mesh.well_formed(),
        forall|i: int| 0 <= i < hs@.len() ==> mesh@.has_halfedge(#[trigger] hs@[i]),
        leaves_some(mesh@, hs@, v),
    ensures
        r < hs@.len(),
        r == index_from(mesh@, hs@, v),
{
    let mut k: usize = 0;
    while k < hs.len()
        invariant
            mesh.well_formed(),
            k <= hs@.len(),
            forall|i: int| 0 <= i < hs@.len() ==> mesh@.has_halfedge(#[trigger] hs@[i]),
            forall|j: int| 0 <= j < k ==> mesh@.halfedges[(#[trigger] hs@[j]).0].vertex != Some(v),
            leaves_some(mesh@, hs@, v),
        decreases hs@.len() - k,
    {
        if mesh.halfedge(hs[k]).vertex == Some(v) {
            proof {
                lemma_index_from(mesh@, hs@, v, k as int);
            }
            return k;
        }
        k += 1;
    }
    proof {
        let j = choose|j: int| 0 <= j < hs@.len() && #[trigger] mesh@.halfedges[hs@[j].0].vertex == Some(v);
        assert(mesh@.halfedges[hs@[j].0].vertex != Some(v));
    }
    0
}

/// Whether `vs` holds `w`.
fn has_vertex_in(vs: &Vec<VertexId>, w: VertexId) -> (r: bool)
    ensures
        r == vs@.contains(w),
{
    let mut k: usize = 0;
    while k < vs.len()
        invariant
            k <= vs@.len(),
            forall|j: int| 0 <= j < k ==> vs@[j] != w,
        decreases vs@.len() - k,
    {
        if vs[k] == w {
            assert(vs@[k as int] == w);
            return true;
        }
        k += 1;
    }
    false
}

/// Cuts the face that `v` and `w` share, which must have more than three
/// sides, with a new edge from `v` to `w`, and gives the new half-edge from
/// `v`. The part of the face from `v` to `w` becomes a new face.
pub fn cut_face(mesh: &mut MeshConnectivity, v: VertexId, w: VertexId) -> (r: Result<HalfEdgeId, EditError>)
    requires
        old(mesh).well_formed(),
        old(mesh)@.links_valid(),
        old(mesh)@.has_room(2),
        old(mesh)@.has_vertex(v),
    ensures
        final(mesh).well_formed(),
        (r matches Err(EditError::Traversal(e)) && is_refusal(e)) ==> !cut_ready(old(mesh)@, v, w),
        !(r matches Err(EditError::Traversal(e)) && is_refusal(e)) ==> match cut_face_of(old(mesh)@, v, w) {
            Err(e) => r == Err::<HalfEdgeId, EditError>(e) && final(mesh)@ == old(mesh)@,
            Ok(f) => exists|a: HalfEdgeId, b: HalfEdgeId, nf: FaceId|
                #![trigger cut_result(old(mesh)@, f, v, w, a, b, nf)]
                !old(mesh)@.has_halfedge(a) && !old(mesh)@.has_halfedge(b) && a != b && !old(mesh)@.has_face(nf) && r
                    == Ok::<HalfEdgeId, EditError>(a) && final(mesh)@ == cut_result(old(mesh)@, f, v, w, a, b, nf),
        },
{
    let ghost m = mesh@;
    let lim = mesh.num_halfedges();
    match mesh.vertex(v).halfedge {
        Some(h) => {
            if !mesh.walk_closes_within(WalkKind::Fan, h, lim) {
                return Err(EditError::Traversal(TraversalError::HalfedgeBadLoop(h)));
            }
            proof {
                let k = choose|k: nat| 1 <= k <= lim && #[trigger] crate::halfedge::walk_closes(m, WalkKind::Fan, h.0, k);
                assert(crate::halfedge::walk_closes(m, WalkKind::Fan, h.0, k));
            }
        },
        None => {},
    }
    let tv = mesh.at_vertex(v);
    let faces = match tv.adjacent_faces() {
        Ok(fs) => fs,
        Err(e) => {
            proof {
                if let Some(h) = m.vertices[v.0].halfedge {
                    lemma_outcome_error_plain(m, WalkKind::Fan, h.0);
                }
            }
            return Err(EditError::Traversal(e));
        },
    };
    let ghost out = outgoing_of(m, v)->Ok_0;
    let ghost fs = faces@;
    assert(fs == present_faces(m, out));
    let mut found: Option<FaceId> = None;
    let mut i: usize = 0;
    proof {
        assert(fs.skip(0) =~= fs);
    }
    while i < faces.len()
        invariant_except_break
            found is None,
        invariant
            mesh@ == m,
            mesh.well_formed(),
            m.links_valid(),
            fs == faces@,
            i <= fs.len(),
            forall|j: int| 0 <= j < i ==> !(map_vertices(m, face_loop(m, #[trigger] fs[j])) matches Ok(vs) && vs.contains(w)),
            cut_ready(m, v, w) ==> faces_readable(m, fs.skip(i as int), w),
            outgoing_of(m, v) == Ok::<Seq<HalfEdgeId>, TraversalError>(out),
        ensures
            mesh@ == m,
            found matches Some(f) ==> first_face_with(m, fs, w) == Some(f),
            found matches Some(f) ==> (face_within(m, f) && (map_vertices(m, face_loop(m, f)) matches Ok(vs) && vs.contains(w))),
            found is None ==> forall|j: int| 0 <= j < fs.len() ==> !(map_vertices(m, face_loop(m, #[trigger] fs[j])) matches Ok(vs) && vs.contains(w)),
        decreases fs.len() - i,
    {
        let f = faces[i];
        proof {
            assert(fs.skip(i as int)[0] == f);
        }
        let vs = match mesh.face_vertices_checked(f) {
            Some(x) => x,
            None => {
                proof {
                    if cut_ready(m, v, w) {
                        assert(faces_readable(m, fs.skip(i as int), w));
                    }
                }
                return Err(EditError::Traversal(TraversalError::FaceBadLoop(f)));
            },
        };
        if has_vertex_in(&vs, w) {
            proof {
                lemma_first_face_skip(m, fs, w, i as int);
                assert(fs.skip(i as int)[0] == f);
            }
            found = Some(f);
            break;
        }
        proof {
            if cut_ready(m, v, w) {
                lemma_readable_skip(m, fs, w, i as int);
            }
        }
        i += 1;
    }
    proof {
        if found is None {
            lemma_first_face_skip(m, fs, w, fs.len() as int);
            assert(fs.skip(fs.len() as int).len() == 0);
        }
    }
    let face = match found {
        Some(f) => f,
        None => {
            return Err(EditError::NoSharedFace);
        },
    };
    let th = tv.halfedge_to(w);
    if th.is_ok() {
        return Err(EditError::AlreadyAdjacent);
    }
    proof {
        crate::halfedge::lemma_loop_ok_cycles(m, m.faces[face.0].halfedge->Some_0.0);
    }
    let fh = mesh.face_edges(face);
    let n = fh.len();
    if n <= 3 {
        return Err(EditError::FaceTooSmall);
    }
    proof {
        assert(cut_face_of(m, v, w) == Ok::<FaceId, EditError>(face));
    }
    if n >= 0x8000_0000 || !leaves_check(mesh, &fh, v) {
        return Err(EditError::Traversal(TraversalError::FaceBadLoop(face)));
    }
    proof {
        assert(cut_face_of(m, v, w) == Ok::<FaceId, EditError>(face));
        let vs = map_vertices(m, fh@)->Ok_0;
        assert(vs.contains(w));
        lemma_map_vertices_leaves(m, fh@, w);
    }
    let vi = position_of(mesh, &fh, v);
    let wi = position_of(mesh, &fh, w);
    let vpi: usize = if vi == 0 {
        n - 1
    } else {
        vi - 1
    };
    let wpi: usize = if wi == 0 {
        n - 1
    } else {
        wi - 1
    };
    let end: usize = if wpi < vi {
        wpi + n
    } else {
        wpi
    };
    proof {
        let ni = n as int;
        if vi == 0 {
            vstd::arithmetic::div_mod::lemma_small_mod((ni - 1) as nat, ni as nat);
        } else {
            vstd::arithmetic::div_mod::lemma_mod_add_multiples_vanish(vi - 1, ni);
            vstd::arithmetic::div_mod::lemma_small_mod((vi - 1) as nat, ni as nat);
        }
        if wi == 0 {
            vstd::arithmetic::div_mod::lemma_small_mod((ni - 1) as nat, ni as nat);
        } else {
            vstd::arithmetic::div_mod::lemma_mod_add_multiples_vanish(wi - 1, ni);
            vstd::arithmetic::div_mod::lemma_small_mod((wi - 1) as nat, ni as nat);
        }
        assert(vpi == (vi - 1 + ni) % ni);
        assert(wpi == (wi - 1 + ni) % ni);
    }
    let vp = fh[vpi];
    let wp = fh[wpi];
    let h_vn = fh[vi];
    let h_wn = fh[wi];
    let a = mesh.alloc_halfedge(HalfEdge::new_unlinked());
    let b = mesh.alloc_halfedge(HalfEdge::new_unlinked());
    let nf = mesh.alloc_face(None);
    mesh.set_halfedge(a, HalfEdge { twin: Some(b), next: Some(h_wn), vertex: Some(v), face: Some(face) });
    mesh.set_halfedge(b, HalfEdge { twin: Some(a), next: Some(h_vn), vertex: Some(w), face: Some(nf) });
    mesh.set_face(nf, Face { halfedge: Some(b) });
    mesh.set_face(face, Face { halfedge: Some(a) });
    let ghost before_links = mesh@;
    mesh.set_next(vp, Some(a));
    mesh.set_next(wp, Some(b));
    let ghost base = mesh@.halfedges;
    proof {
        let hs1 = m.halfedges.insert(a.0, HalfEdge { twin: Some(b), next: Some(h_wn), vertex: Some(v), face: Some(face) }).insert(
            b.0,
            HalfEdge { twin: Some(a), next: Some(h_vn), vertex: Some(w), face: Some(nf) },
        );
        assert(before_links.halfedges =~= hs1);
        assert(mesh@.faces =~= m.faces.insert(nf.0, Face { halfedge: Some(b) }).insert(face.0, Face { halfedge: Some(a) }));
    }
    let ghost span = loop_span(fh@, vi as int, end as int);
    proof {
        assert forall|k: int| 0 <= k < span.len() implies base.dom().contains(#[trigger] span[k].0) by {
            let idx = (vi + k) % (n as int);
            assert(0 <= idx < n) by {
                vstd::arithmetic::div_mod::lemma_mod_bound((vi + k) as int, n as int);
            }
        }
    }
    let mut k: usize = 0;
    while k <= end - vi
        invariant
            mesh.well_formed(),
            vi <= end < 2 * n,
            n == fh@.len(),
            n > 3,
            n < 0x8000_0000,
            k <= end - vi + 1,
            span == loop_span(fh@, vi as int, end as int),
            forall|j: int| 0 <= j < span.len() ==> base.dom().contains(#[trigger] span[j].0),
            mesh@.halfedges == faces_set(base, span.take(k as int), Some(nf)),
            mesh@.vertices == m.vertices,
            mesh@.faces == m.faces.insert(nf.0, Face { halfedge: Some(b) }).insert(face.0, Face { halfedge: Some(a) }),
        decreases end - vi + 1 - k,
    {
        let idx = (vi + k) % n;
        proof {
            crate::edit_ops::lemma_faces_set_dom(base, span.take(k as int), Some(nf));
            assert(span.take(k + 1).drop_last() =~= span.take(k as int));
            assert(span.take(k + 1).last() == span[k as int]);
            assert(span[k as int] == fh@[idx as int]);
        }
        mesh.set_halfedge_face(fh[idx], Some(nf));
        k += 1;
    }
    assert(span.take(span.len() as int) =~= span);
    proof {
        let fhs = face_loop(m, face);
        assert(fhs == fh@);
        assert(vi == index_from(m, fhs, v));
        assert(wi == index_from(m, fhs, w));
        let hs1 = m.halfedges.insert(a.0, HalfEdge { twin: Some(b), next: Some(h_wn), vertex: Some(v), face: Some(face) }).insert(
            b.0,
            HalfEdge { twin: Some(a), next: Some(h_vn), vertex: Some(w), face: Some(nf) },
        );
        let hs2 = hs1.insert(vp.0, with_next(hs1[vp.0], Some(a)));
        let hs3 = hs2.insert(wp.0, with_next(hs2[wp.0], Some(b)));
        assert(base == hs3);
        assert(mesh@.halfedges == faces_set(hs3, span, Some(nf)));
        assert(mesh@ == cut_result(m, face, v, w, a, b, nf));
    }
    Ok(a)
}

} // verus!
