//! Chamfering vertices, and the connectivity of bevels and extrusions, built
//! from the edge and face operations. Where a step would read an element
//! that is not there, or follow a walk that does not come back within as
//! many steps as the mesh has half-edges, the operation stops with an error.
use vstd::prelude::*;

use crate::edit_ops::collapse::collapse_edge;
use crate::edit_ops::cut::cut_face;
use crate::edit_ops::dissolve::{dissolve_vertex, outgoing_of};
use crate::edit_ops::{divide_edge, duplicate_edge, faces_set, EditError};
use crate::mesh::face_loop;
use crate::halfedge::{closes_within, loop_check, walk_closes, FaceId, HalfEdgeId, MeshConnectivity, VertexId, WalkKind};
use crate::traversals::{AnyTraversal, TraversalError, VertexTraversalHelpers};

verus! {

/// Whether each arena of the mesh can take `n` more elements.
fn room_check(mesh: &MeshConnectivity, n: usize) -> (r: bool)
    requires
        mesh.well_formed(),
        n < 0x1000,
    ensures
        r == mesh@.has_room(n as nat),
{
    let nv = mesh.num_vertices() as u64;
    let nfc = mesh.num_faces() as u64;
    let nh = mesh.num_halfedges() as u64;
    let k = n as u64;
    nv < 0x1_0000_0000u64 && nfc < 0x1_0000_0000u64 && nh < 0x1_0000_0000u64 && nv + k + 2 < 0x1_0000_0000u64 && nfc + k + 2 < 0x1_0000_0000u64 && nh + k + 2 < 0x1_0000_0000u64
}

/// The vertices `vs` are distinct, and none of them is a vertex of `m`.
pub open spec fn fresh_vertices(m: crate::halfedge::MeshView, vs: Seq<VertexId>) -> bool {
    &&& forall|i: int| 0 <= i < vs.len() ==> !m.has_vertex(#[trigger] vs[i])
    &&& forall|i: int, j: int| 0 <= i < j < vs.len() ==> #[trigger] vs[i] != #[trigger] vs[j]
}

/// Whether the fan of `v` comes back, or fails, within as many steps as the
/// mesh has half-edges.
fn fan_check(mesh: &MeshConnectivity, v: VertexId) -> (r: bool)
    requires
        mesh.well_formed(),
        mesh@.links_valid(),
        mesh@.has_vertex(v),
    ensures
        r ==> (mesh@.vertices[v.0].halfedge matches Some(h) ==> crate::halfedge::walk_terminates(mesh@, WalkKind::Fan, h.0)),
{
    let ghost m = mesh@;
    match mesh.vertex(v).halfedge {
        Some(h) => {
            proof {
                assert(m.opt_halfedge_ok(m.vertices[v.0].halfedge));
            }
            let lim = mesh.num_halfedges();
            if !mesh.walk_closes_within(WalkKind::Fan, h, lim) {
                return false;
            }
            proof {
                let k = choose|k: nat| 1 <= k <= lim && #[trigger] walk_closes(m, WalkKind::Fan, h.0, k);
                assert(walk_closes(m, WalkKind::Fan, h.0, k));
            }
            true
        },
        None => true,
    }
}

/// How many of the half-edges `hs` are on a face in `m`.
pub open spec fn faced_count(m: crate::halfedge::MeshView, hs: Seq<HalfEdgeId>) -> nat
    decreases hs.len(),
{
    if hs.len() == 0 {
        0
    } else {
        faced_count(m, hs.drop_last()) + if m.halfedges[hs.last().0].face is Some {
            1nat
        } else {
            0nat
        }
    }
}

/// Going round `hs` from its second half-edge, how many of the first `i`
/// are on a face in `m`.
spec fn faced_round(m: crate::halfedge::MeshView, hs: Seq<HalfEdgeId>, i: int) -> nat
    decreases i,
{
    if i <= 0 {
        0
    } else {
        faced_round(m, hs, i - 1) + if m.halfedges[hs[i % (hs.len() as int)].0].face is Some {
            1nat
        } else {
            0nat
        }
    }
}

proof fn lemma_faced_round(m: crate::halfedge::MeshView, hs: Seq<HalfEdgeId>, i: int)
    requires
        0 <= i < hs.len(),
    ensures
        faced_round(m, hs, i) + (if m.halfedges[hs[0].0].face is Some { 1nat } else { 0nat }) == faced_count(m, hs.take(i + 1)),
    decreases i,
{
    if i > 0 {
        lemma_faced_round(m, hs, i - 1);
        assert(hs.take(i + 1).drop_last() =~= hs.take(i));
        assert(hs.take(i + 1).last() == hs[i]);
        vstd::arithmetic::div_mod::lemma_small_mod(i as nat, hs.len() as nat);
        assert(i % (hs.len() as int) == i);
    } else {
        assert(hs.take(1).drop_last() =~= hs.take(0));
        assert(hs.take(1).last() == hs[0]);
        assert(faced_count(m, hs.take(0)) == 0);
    }
}

/// Going all the way round counts each half-edge once.
proof fn lemma_faced_round_all(m: crate::halfedge::MeshView, hs: Seq<HalfEdgeId>)
    requires
        hs.len() > 0,
    ensures
        faced_round(m, hs, hs.len() as int) == faced_count(m, hs),
{
    let n = hs.len() as int;
    lemma_faced_round(m, hs, n - 1);
    assert(hs.take(n) =~= hs);
    vstd::arithmetic::div_mod::lemma_mod_self_0(n);
}

/// Setting faces keeps every half-edge.
proof fn lemma_faces_set_has(m: Map<u64, crate::halfedge::HalfEdge>, hs: Seq<HalfEdgeId>, f: FaceId, k: u64)
    requires
        m.dom().contains(k),
    ensures
        faces_set(m, hs, Some(f)).dom().contains(k),
    decreases hs.len(),
{
    if hs.len() > 0 {
        lemma_faces_set_has(m, hs.drop_last(), f, k);
    }
}

/// Setting faces keeps every half-edge that was on a face on one.
proof fn lemma_faces_set_keeps(m: Map<u64, crate::halfedge::HalfEdge>, hs: Seq<HalfEdgeId>, f: FaceId, k: u64)
    requires
        m.dom().contains(k),
        m[k].face is Some,
    ensures
        faces_set(m, hs, Some(f)).dom().contains(k),
        faces_set(m, hs, Some(f))[k].face is Some,
    decreases hs.len(),
{
    if hs.len() > 0 {
        lemma_faces_set_keeps(m, hs.drop_last(), f, k);
    }
}

/// Half-edge `h` is in `cur`, and on a face there if it was on one in `m`.
spec fn faced_kept(m: crate::halfedge::MeshView, cur: crate::halfedge::MeshView, h: HalfEdgeId) -> bool {
    cur.has_halfedge(h) && (m.halfedges[h.0].face is Some ==> cur.halfedges[h.0].face is Some)
}

/// Dividing an edge changes the face of no half-edge that was there.
proof fn lemma_divide_keeps_face(m: crate::halfedge::MeshView, h: HalfEdgeId, x: VertexId, a: HalfEdgeId, b: HalfEdgeId, k: u64)
    requires
        m.halfedges.dom().contains(k),
        k != a.0,
        k != b.0,
    ensures
        crate::edit_ops::divided_halfedges(m, h, x, a, b).dom().contains(k),
        crate::edit_ops::divided_halfedges(m, h, x, a, b)[k].face == m.halfedges[k].face,
{
}

/// A cut that succeeds adds a face and keeps every half-edge that was on a
/// face on one.
proof fn lemma_cut_keeps_faced(before: crate::halfedge::MeshView, a: VertexId, b: VertexId, after: crate::halfedge::MeshView, out: Seq<HalfEdgeId>)
    requires
        before.well_formed(),
        exists|x: HalfEdgeId, y: HalfEdgeId, nf: FaceId, f: FaceId|
            #![trigger crate::edit_ops::cut::cut_result(before, f, a, b, x, y, nf)]
            !before.has_halfedge(x) && !before.has_halfedge(y) && !before.has_face(nf) && after == crate::edit_ops::cut::cut_result(before, f, a, b, x, y, nf),
    ensures
        after.faces.dom().len() >= before.faces.dom().len() + 1,
        forall|j: int| 0 <= j < out.len() && #[trigger] before.has_halfedge(out[j]) ==> after.has_halfedge(out[j]) && (
            before.halfedges[out[j].0].face is Some ==> after.halfedges[out[j].0].face is Some),
{
    let (x, y, nf, f) = choose|x: HalfEdgeId, y: HalfEdgeId, nf: FaceId, f: FaceId|
        #![trigger crate::edit_ops::cut::cut_result(before, f, a, b, x, y, nf)]
        !before.has_halfedge(x) && !before.has_halfedge(y) && !before.has_face(nf) && after == crate::edit_ops::cut::cut_result(before, f, a, b, x, y, nf);
    let fs1 = before.faces.insert(nf.0, crate::halfedge::Face { halfedge: Some(y) });
    assert(before.faces.dom().finite());
    assert(fs1.dom().len() == before.faces.dom().len() + 1);
    assert(fs1.dom().subset_of(after.faces.dom()));
    vstd::set_lib::lemma_len_subset(fs1.dom(), after.faces.dom());
    assert forall|j: int| 0 <= j < out.len() && #[trigger] before.has_halfedge(out[j]) implies after.has_halfedge(out[j]) && (
        before.halfedges[out[j].0].face is Some ==> after.halfedges[out[j].0].face is Some) by {
        let k = out[j].0;
        let fh = crate::mesh::face_loop(before, f);
        let n = fh.len() as int;
        let vi = crate::edit_ops::cut::index_from(before, fh, a);
        let wi = crate::edit_ops::cut::index_from(before, fh, b);
        let vp = fh[(vi - 1 + n) % n];
        let wp = fh[(wi - 1 + n) % n];
        let hs1 = before.halfedges.insert(x.0, crate::halfedge::HalfEdge { twin: Some(y), next: Some(fh[wi]), vertex: Some(a), face: Some(f) }).insert(
            y.0,
            crate::halfedge::HalfEdge { twin: Some(x), next: Some(fh[vi]), vertex: Some(b), face: Some(nf) },
        );
        let hs2 = hs1.insert(vp.0, crate::edit_ops::with_next(hs1[vp.0], Some(x)));
        let hs3 = hs2.insert(wp.0, crate::edit_ops::with_next(hs2[wp.0], Some(y)));
        assert(k != x.0 && k != y.0);
        assert(hs3.dom().contains(k) && hs3[k].face == before.halfedges[k].face);
        let e0 = (wi - 1 + n) % n;
        let e = if e0 < vi { e0 + n } else { e0 };
        lemma_faces_set_has(hs3, crate::edit_ops::cut::loop_span(fh, vi, e), nf, k);
        if before.halfedges[k].face is Some {
            lemma_faces_set_keeps(hs3, crate::edit_ops::cut::loop_span(fh, vi, e), nf, k);
        }
    }
}

/// Chamfers the vertex `v`: each of its outgoing edges is divided by a new
/// vertex, consecutive new vertices are joined across the faces between
/// them, and `v` is dissolved into one new face. Where two consecutive
/// edges are separated by the boundary, they are not joined, and `v` is
/// kept: the face is then `None`. The new vertices come in the order of
/// `v`'s outgoing half-edges, which keep their ids.
pub fn chamfer_vertex(mesh: &mut MeshConnectivity, v: VertexId) -> (r: Result<(Option<FaceId>, Vec<VertexId>), EditError>)
    requires
        old(mesh).well_formed(),
        old(mesh)@.links_valid(),
        old(mesh)@.has_vertex(v),
    ensures
        final(mesh).well_formed(),
        r matches Ok((f, vs)) ==> {
            &&& outgoing_of(old(mesh)@, v) matches Ok(out) && vs@.len() == out.len()
            &&& fresh_vertices(old(mesh)@, vs@)
            &&& (f matches Some(nf) ==> !old(mesh)@.has_face(nf))
        },
        r matches Ok((None, vs)) ==> outgoing_of(old(mesh)@, v) matches Ok(out) && final(mesh)@.faces.dom().len()
            >= old(mesh)@.faces.dom().len() + faced_count(old(mesh)@, out),
        r matches Ok((Some(_), _)) ==> !final(mesh)@.has_vertex(v),
{
    let ghost m = mesh@;
    if !fan_check(mesh, v) {
        return Err(EditError::OpenLoop);
    }
    let outgoing = match mesh.at_vertex(v).outgoing_halfedges() {
        Ok(o) => o,
        Err(e) => {
            return Err(EditError::Traversal(e));
        },
    };
    let ghost out = outgoing@;
    assert(outgoing_of(m, v) == Ok::<Seq<HalfEdgeId>, TraversalError>(out));
    let n = outgoing.len();
    proof {
        assert forall|j: int| 0 <= j < n implies #[trigger] faced_kept(m, mesh@, out[j]) by {
            assert(m.has_halfedge(outgoing@[j]));
        }
    }
    let mut vertices: Vec<VertexId> = Vec::new();
    let mut i: usize = 0;
    while i < n
        invariant
            n == outgoing@.len(),
            i <= n,
            mesh.well_formed(),
            mesh@.links_valid(),
            vertices@.len() == i,
            fresh_vertices(m, vertices@),
            forall|j: int| 0 <= j < i ==> mesh@.has_vertex(#[trigger] vertices@[j]),
            forall|k: u64| m.vertices.dom().contains(k) ==> mesh@.vertices.dom().contains(k),
            mesh@.faces == m.faces,
            mesh@.has_vertex(v),
            out == outgoing@,
            forall|j: int| 0 <= j < n ==> m.has_halfedge(#[trigger] out[j]),
            forall|j: int| 0 <= j < n ==> #[trigger] faced_kept(m, mesh@, out[j]),
        decreases n - i,
    {
        let h = outgoing[i];
        if !mesh.contains_halfedge(h) {
            return Err(EditError::Traversal(TraversalError::MissingHalfEdge(h)));
        }
        if !room_check(mesh, 2) {
            return Err(EditError::CapacityExceeded);
        }
        if mesh.halfedge(h).twin.is_some() {
            if !loop_check(mesh, h) {
                return Err(EditError::OpenLoop);
            }
            proof {
                crate::halfedge::lemma_loop_ok_cycles(mesh@, h.0);
            }
        }
        let ghost before = mesh@;
        let x = match divide_edge(mesh, h) {
            Ok(x) => x,
            Err(e) => {
                return Err(EditError::Traversal(e));
            },
        };
        proof {
            let av = mesh@.vertices[before.halfedges[h.0].vertex->Some_0.0].halfedge->Some_0;
            let bv = mesh@.halfedges[av.0].twin->Some_0;
            assert forall|j: int| 0 <= j < n implies #[trigger] faced_kept(m, mesh@, out[j]) by {
                assert(faced_kept(m, before, out[j]));
                lemma_divide_keeps_face(before, h, x, av, bv, out[j].0);
            }
            assert(!before.has_vertex(x));
            assert forall|a: int, b: int| 0 <= a < b < vertices@.push(x).len() implies #[trigger] vertices@.push(x)[a] != #[trigger] vertices@.push(x)[b] by {
                if b == i {
                    assert(before.has_vertex(vertices@[a]));
                }
            }
            assert forall|j: int| 0 <= j < i + 1 implies mesh@.has_vertex(#[trigger] vertices@.push(x)[j]) by {
                if j < i {
                    assert(before.has_vertex(vertices@[j]));
                }
            }
        }
        vertices.push(x);
        i += 1;
    }
    let mut is_boundary = false;
    let mut i: usize = 0;
    while i < n
        invariant
            n == outgoing@.len(),
            n == vertices@.len(),
            i <= n,
            mesh.well_formed(),
            fresh_vertices(m, vertices@),
            forall|k: u64| m.faces.dom().contains(k) ==> mesh@.faces.dom().contains(k),
            out == outgoing@,
            n > 0 ==> outgoing_of(m, v) == Ok::<Seq<HalfEdgeId>, TraversalError>(out),
            forall|j: int| 0 <= j < n ==> #[trigger] faced_kept(m, mesh@, out[j]),
            mesh@.faces.dom().len() >= m.faces.dom().len() + faced_round(m, out, i as int),
        decreases n - i,
    {
        let j = if i + 1 == n {
            0
        } else {
            i + 1
        };
        let hw = outgoing[j];
        let a = vertices[i];
        let b = vertices[j];
        if !mesh.links_check() {
            return Err(EditError::Traversal(TraversalError::MissingHalfEdge(hw)));
        }
        if !mesh.contains_halfedge(hw) {
            return Err(EditError::Traversal(TraversalError::MissingHalfEdge(hw)));
        }
        proof {
            if j == 0 {
                vstd::arithmetic::div_mod::lemma_mod_self_0(n as int);
            } else {
                vstd::arithmetic::div_mod::lemma_small_mod((i + 1) as nat, n as nat);
            }
            assert(out[((i + 1) as int) % (n as int)] == hw);
            assert(faced_kept(m, mesh@, out[j as int]));
        }
        if mesh.halfedge(hw).face.is_none() {
            is_boundary = true;
        } else {
            if !room_check(mesh, 2) {
                return Err(EditError::CapacityExceeded);
            }
            if !mesh.contains_vertex(a) {
                return Err(EditError::Traversal(TraversalError::MissingVertex(a)));
            }
            let ghost before = mesh@;
            match cut_face(mesh, a, b) {
                Ok(_) => {},
                Err(e) => {
                    return Err(e);
                },
            }
            proof {
                assert forall|k: u64| m.faces.dom().contains(k) implies mesh@.faces.dom().contains(k) by {
                    assert(before.faces.dom().contains(k));
                }
                lemma_cut_keeps_faced(before, a, b, mesh@, out);
                assert forall|jj: int| 0 <= jj < n implies #[trigger] faced_kept(m, mesh@, out[jj]) by {
                    assert(faced_kept(m, before, out[jj]));
                }
            }
        }
        i += 1;
    }
    if is_boundary {
        proof {
            if n > 0 {
                lemma_faced_round_all(m, out);
            } else {
                assert(out.len() == 0);
            }
        }
        return Ok((None, vertices));
    }
    if !mesh.links_check() {
        return Err(EditError::Traversal(TraversalError::MissingVertex(v)));
    }
    if !mesh.contains_vertex(v) {
        return Err(EditError::Traversal(TraversalError::MissingVertex(v)));
    }
    if !fan_check(mesh, v) {
        return Err(EditError::OpenLoop);
    }
    if !room_check(mesh, 1) {
        return Err(EditError::CapacityExceeded);
    }
    let ghost pre = mesh@;
    let f = match dissolve_vertex(mesh, v) {
        Ok(f) => f,
        Err(e) => {
            return Err(e);
        },
    };
    proof {
        let nf = choose|nf: FaceId|
            Ok::<FaceId, EditError>(f) == (#[trigger] crate::edit_ops::dissolve::dissolve_outcome(pre, v, nf)).0
                && mesh@ == crate::edit_ops::dissolve::dissolve_outcome(pre, v, nf).1;
        crate::edit_ops::dissolve::lemma_dissolve_removes_vertex(pre, v, nf);
    }
    Ok((Some(f), vertices))
}

/// The half-edges `s` are in increasing order of their keys.
pub open spec fn sorted_halfedges(s: Seq<HalfEdgeId>) -> bool {
    forall|i: int, j: int| 0 <= i < j < s.len() ==> (#[trigger] s[i]).0 < (#[trigger] s[j]).0
}

/// The vertices `s` are in increasing order of their keys.
pub open spec fn sorted_vertices(s: Seq<VertexId>) -> bool {
    forall|i: int, j: int| 0 <= i < j < s.len() ==> (#[trigger] s[i]).0 < (#[trigger] s[j]).0
}

/// Adds `h` to the ordered set `v`.
#[verifier::spinoff_prover]
fn insert_halfedge(v: &mut Vec<HalfEdgeId>, h: HalfEdgeId)
    requires
        sorted_halfedges(old(v)@),
    ensures
        sorted_halfedges(final(v)@),
        forall|x: HalfEdgeId| final(v)@.contains(x) <==> old(v)@.contains(x) || x == h,
{
    let mut p: usize = 0;
    while p < v.len() && v[p].0 < h.0
        invariant
            v@ == old(v)@,
            p <= v@.len(),
            forall|j: int| 0 <= j < p ==> (#[trigger] v@[j]).0 < h.0,
        decreases v@.len() - p,
    {
        p += 1;
    }
    if p < v.len() && v[p].0 == h.0 {
        assert(v@[p as int] == h);
        assert(v@.contains(h));
        return;
    }
    let ghost s0 = v@;
    assert(s0 == old(v)@);
    v.insert(p, h);
    proof {
        assert forall|i: int, j: int| 0 <= i < j < v@.len() implies (#[trigger] v@[i]).0 < (#[trigger] v@[j]).0 by {
            if j < p {
            } else if j == p {
            } else if i < p {
                assert(v@[j] == s0[j - 1]);
                if j - 1 > p {
                    assert(s0[p as int].0 < s0[j - 1].0);
                }
            } else if i == p {
                assert(v@[j] == s0[j - 1]);
                if j - 1 > p {
                    assert(s0[p as int].0 < s0[j - 1].0);
                }
            } else {
                assert(v@[i] == s0[i - 1]);
                assert(v@[j] == s0[j - 1]);
            }
        }
        assert forall|x: HalfEdgeId| #[trigger] v@.contains(x) <==> old(v)@.contains(x) || x == h by {
            if s0.contains(x) {
                let k = choose|k: int| 0 <= k < s0.len() && s0[k] == x;
                if k < p {
                    assert(v@[k] == x);
                } else {
                    assert(v@[k + 1] == x);
                }
            }
            if x == h {
                assert(v@[p as int] == h);
            }
            if v@.contains(x) {
                let k = choose|k: int| 0 <= k < v@.len() && v@[k] == x;
                if k < p {
                    assert(s0[k] == x);
                } else if k > p {
                    assert(s0[k - 1] == x);
                }
            }
        }
    }
}

/// Adds `x` to the ordered set `v`.
#[verifier::spinoff_prover]
fn insert_vertex(v: &mut Vec<VertexId>, x: VertexId)
    requires
        sorted_vertices(old(v)@),
    ensures
        sorted_vertices(final(v)@),
        forall|y: VertexId| final(v)@.contains(y) <==> old(v)@.contains(y) || y == x,
{
    let mut p: usize = 0;
    while p < v.len() && v[p].0 < x.0
        invariant
            v@ == old(v)@,
            p <= v@.len(),
            forall|j: int| 0 <= j < p ==> (#[trigger] v@[j]).0 < x.0,
        decreases v@.len() - p,
    {
        p += 1;
    }
    if p < v.len() && v[p].0 == x.0 {
        assert(v@[p as int] == x);
        assert(v@.contains(x));
        return;
    }
    let ghost s0 = v@;
    assert(s0 == old(v)@);
    v.insert(p, x);
    proof {
        assert forall|i: int, j: int| 0 <= i < j < v@.len() implies (#[trigger] v@[i]).0 < (#[trigger] v@[j]).0 by {
            if j < p {
            } else if j == p {
            } else if i < p {
                assert(v@[j] == s0[j - 1]);
                if j - 1 > p {
                    assert(s0[p as int].0 < s0[j - 1].0);
                }
            } else if i == p {
                assert(v@[j] == s0[j - 1]);
                if j - 1 > p {
                    assert(s0[p as int].0 < s0[j - 1].0);
                }
            } else {
                assert(v@[i] == s0[i - 1]);
                assert(v@[j] == s0[j - 1]);
            }
        }
        assert forall|y: VertexId| #[trigger] v@.contains(y) <==> old(v)@.contains(y) || y == x by {
            if s0.contains(y) {
                let k = choose|k: int| 0 <= k < s0.len() && s0[k] == y;
                if k < p {
                    assert(v@[k] == y);
                } else {
                    assert(v@[k + 1] == y);
                }
            }
            if y == x {
                assert(v@[p as int] == x);
            }
            if v@.contains(y) {
                let k = choose|k: int| 0 <= k < v@.len() && v@[k] == y;
                if k < p {
                    assert(s0[k] == y);
                } else if k > p {
                    assert(s0[k - 1] == y);
                }
            }
        }
    }
}

/// Whether `h` is among `v`.
fn has_halfedge_in(v: &Vec<HalfEdgeId>, h: HalfEdgeId) -> (r: bool)
    ensures
        r == v@.contains(h),
{
    let mut k: usize = 0;
    while k < v.len()
        invariant
            k <= v@.len(),
            forall|j: int| 0 <= j < k ==> v@[j] != h,
        decreases v@.len() - k,
    {
        if v[k] == h {
            return true;
        }
        k += 1;
    }
    false
}

/// Where `v` ended up after the collapses recorded in `moves` (each entry
/// says that a vertex became another one): the moves are followed from
/// `v` until a vertex that did not move. `None` when they go round without
/// end.
fn translated(moves: &Vec<(VertexId, VertexId)>, v: VertexId) -> (r: Option<VertexId>)
{
    let mut cur = v;
    let mut fuel: usize = moves.len();
    loop
        decreases fuel,
    {
        let mut found: Option<VertexId> = None;
        let mut k: usize = 0;
        while k < moves.len()
            invariant
                k <= moves@.len(),
            decreases moves@.len() - k,
        {
            if moves[k].0 == cur {
                found = Some(moves[k].1);
            }
            k += 1;
        }
        match found {
            None => {
                return Some(cur);
            },
            Some(next) => {
                if fuel == 0 {
                    return None;
                }
                cur = next;
                fuel -= 1;
            },
        }
    }
}

/// Records that `x` became `y`, in place of an earlier move of `x`.
fn record_move(moves: &mut Vec<(VertexId, VertexId)>, x: VertexId, y: VertexId) {
    let mut k: usize = 0;
    while k < moves.len()
        invariant
            k <= moves@.len(),
        decreases moves@.len() - k,
    {
        if moves[k].0 == x {
            moves.set(k, (x, y));
            return;
        }
        k += 1;
    }
    moves.push((x, y));
}

/// Whether `vs` holds `x`.
fn has_vertex_in(vs: &Vec<VertexId>, x: VertexId) -> (r: bool)
    ensures
        r == vs@.contains(x),
{
    let mut k: usize = 0;
    while k < vs.len()
        invariant
            k <= vs@.len(),
            forall|j: int| 0 <= j < k ==> vs@[j] != x,
        decreases vs@.len() - k,
    {
        if vs[k] == x {
            return true;
        }
        k += 1;
    }
    false
}

/// The outgoing half-edge of `a` that ends at `b`.
fn halfedge_between(mesh: &MeshConnectivity, a: VertexId, b: VertexId) -> (r: Result<HalfEdgeId, EditError>)
    requires
        mesh.well_formed(),
    ensures
        r matches Ok(h) ==> mesh@.links_valid() && mesh@.has_halfedge(h),
{
    if !mesh.links_check() {
        return Err(EditError::Traversal(TraversalError::MissingVertex(a)));
    }
    if !mesh.contains_vertex(a) {
        return Err(EditError::Traversal(TraversalError::MissingVertex(a)));
    }
    if !fan_check(mesh, a) {
        return Err(EditError::OpenLoop);
    }
    let t = mesh.at_vertex(a);
    let to = t.halfedge_to(b);
    let h = match to.try_end() {
        Ok(h) => h,
        Err(e) => {
            return Err(EditError::Traversal(e));
        },
    };
    if !mesh.contains_halfedge(h) {
        return Err(EditError::Traversal(TraversalError::MissingHalfEdge(h)));
    }
    Ok(h)
}

/// Whether some face around `x` also has `y` among its vertices; `false`
/// where the faces around `x` cannot be listed.
fn share_face(mesh: &MeshConnectivity, x: VertexId, y: VertexId) -> (r: Result<bool, EditError>)
    requires
        mesh.well_formed(),
{
    if !mesh.links_check() {
        return Err(EditError::Traversal(TraversalError::MissingVertex(x)));
    }
    if !mesh.contains_vertex(x) {
        return Err(EditError::Traversal(TraversalError::MissingVertex(x)));
    }
    if !fan_check(mesh, x) {
        return Err(EditError::OpenLoop);
    }
    let t = mesh.at_vertex(x);
    let faces = match t.adjacent_faces() {
        Ok(fs) => fs,
        Err(_) => {
            return Ok(false);
        },
    };
    let mut k: usize = 0;
    while k < faces.len()
        invariant
            mesh.well_formed(),
            mesh@.links_valid(),
            k <= faces@.len(),
        decreases faces@.len() - k,
    {
        match mesh.face_vertices_checked(faces[k]) {
            None => {
                return Err(EditError::Traversal(TraversalError::FaceBadLoop(faces[k])));
            },
            Some(vs) => {
                if has_vertex_in(&vs, y) {
                    return Ok(true);
                }
            },
        }
        k += 1;
    }
    Ok(false)
}

/// Collapses the edge from `a` to `b`, so that `b` becomes `a`.
fn collapse_between(mesh: &mut MeshConnectivity, a: VertexId, b: VertexId) -> (r: Result<(), EditError>)
    requires
        old(mesh).well_formed(),
    ensures
        final(mesh).well_formed(),
{
    let h = match halfedge_between(mesh, a, b) {
        Ok(h) => h,
        Err(e) => {
            return Err(e);
        },
    };
    match collapse_edge(mesh, h) {
        Ok(_) => Ok(()),
        Err(e) => Err(EditError::Traversal(e)),
    }
}

/// Half-edge `x` is one of `hs`, or the twin in `m` of one of them.
pub open spec fn in_bevel_set(m: crate::halfedge::MeshView, hs: Seq<HalfEdgeId>, x: HalfEdgeId) -> bool {
    hs.contains(x) || exists|j: int| 0 <= j < hs.len() && #[trigger] m.halfedges[hs[j].0].twin == Some(x)
}

/// Duplicates the edges of `halfedges` (each edge once), and gives the
/// half-edges handled, the new half-edges, and the vertices at the ends of
/// the edges.
fn bevel_duplicate(mesh: &mut MeshConnectivity, halfedges: &[HalfEdgeId]) -> (r: Result<(Vec<HalfEdgeId>, Vec<HalfEdgeId>, Vec<VertexId>), EditError>)
    requires
        old(mesh).well_formed(),
        old(mesh)@.links_valid(),
        forall|i: int| 0 <= i < halfedges@.len() ==> old(mesh)@.has_halfedge(#[trigger] halfedges@[i]),
    ensures
        final(mesh).well_formed(),
        final(mesh)@.links_valid(),
        r matches Ok((edges, dups, verts)) ==> {
            &&& sorted_halfedges(edges@)
            &&& sorted_halfedges(dups@)
            &&& sorted_vertices(verts@)
            &&& forall|i: int| 0 <= i < halfedges@.len() ==> edges@.contains(#[trigger] halfedges@[i])
            &&& forall|x: HalfEdgeId| #[trigger] edges@.contains(x) ==> in_bevel_set(old(mesh)@, halfedges@, x)
        },
{
    let ghost m = mesh@;
    let mut edges: Vec<HalfEdgeId> = Vec::new();
    let mut dups: Vec<HalfEdgeId> = Vec::new();
    let mut verts: Vec<VertexId> = Vec::new();
    let mut i: usize = 0;
    while i < halfedges.len()
        invariant
            m == old(mesh)@,
            i <= halfedges@.len(),
            mesh.well_formed(),
            mesh@.links_valid(),
            forall|j: int| 0 <= j < halfedges@.len() ==> m.has_halfedge(#[trigger] halfedges@[j]),
            sorted_halfedges(edges@),
            sorted_halfedges(dups@),
            sorted_vertices(verts@),
            forall|j: int| 0 <= j < i ==> edges@.contains(#[trigger] halfedges@[j]),
            forall|x: HalfEdgeId| #[trigger] edges@.contains(x) ==> in_bevel_set(m, halfedges@, x),
            forall|k: u64|
                m.halfedges.dom().contains(k) && !edges@.contains(HalfEdgeId(k)) ==> mesh@.halfedges.dom().contains(k)
                    && #[trigger] mesh@.halfedges[k].twin == m.halfedges[k].twin,
        decreases halfedges@.len() - i,
    {
        let h = halfedges[i];
        if !has_halfedge_in(&edges, h) {
            proof {
                assert(m.has_halfedge(halfedges@[i as int]));
                assert(mesh@.halfedges[h.0].twin == m.halfedges[h.0].twin);
            }
            let t = match mesh.halfedge(h).twin {
                Some(t) => t,
                None => {
                    return Err(EditError::Traversal(TraversalError::HalfEdgeHasNoTwin(h)));
                },
            };
            proof {
                assert(in_bevel_set(m, halfedges@, t)) by {
                    assert(m.halfedges[halfedges@[i as int].0].twin == Some(t));
                }
                assert(halfedges@.contains(h)) by {
                    assert(halfedges@[i as int] == h);
                }
            }
            let ghost e0 = edges@;
            insert_halfedge(&mut edges, h);
            if !has_halfedge_in(&edges, t) {
                let ghost e1 = edges@;
                insert_halfedge(&mut edges, t);
                if !room_check(mesh, 2) {
                    return Err(EditError::CapacityExceeded);
                }
                let ghost before = mesh@;
                let h_dup = match duplicate_edge(mesh, h) {
                    Ok(a) => a,
                    Err(e) => {
                        return Err(EditError::Traversal(e));
                    },
                };
                proof {
                    assert forall|k: u64|
                        m.halfedges.dom().contains(k) && !edges@.contains(HalfEdgeId(k)) implies mesh@.halfedges.dom().contains(k)
                            && #[trigger] mesh@.halfedges[k].twin == m.halfedges[k].twin by {
                        assert(!e0.contains(HalfEdgeId(k)));
                        assert(before.halfedges.dom().contains(k));
                        assert(k != h.0 && k != t.0);
                    }
                }
                insert_halfedge(&mut dups, h_dup);
                if !mesh.contains_halfedge(h_dup) {
                    return Err(EditError::Traversal(TraversalError::MissingHalfEdge(h_dup)));
                }
                let dn = match mesh.halfedge(h_dup).next {
                    Some(x) => x,
                    None => {
                        return Err(EditError::Traversal(TraversalError::HalfEdgeHasNoNext(h_dup)));
                    },
                };
                insert_halfedge(&mut dups, dn);
                if !mesh.contains_halfedge(h) {
                    return Err(EditError::Traversal(TraversalError::MissingHalfEdge(h)));
                }
                let he = mesh.halfedge(h);
                let src = match he.vertex {
                    Some(x) => x,
                    None => {
                        return Err(EditError::Traversal(TraversalError::HalfEdgeHasNoVertex(h)));
                    },
                };
                let hn = match he.next {
                    Some(x) => x,
                    None => {
                        return Err(EditError::Traversal(TraversalError::HalfEdgeHasNoNext(h)));
                    },
                };
                if !mesh.contains_halfedge(hn) {
                    return Err(EditError::Traversal(TraversalError::MissingHalfEdge(hn)));
                }
                let dst = match mesh.halfedge(hn).vertex {
                    Some(x) => x,
                    None => {
                        return Err(EditError::Traversal(TraversalError::HalfEdgeHasNoVertex(hn)));
                    },
                };
                insert_vertex(&mut verts, src);
                insert_vertex(&mut verts, dst);
            }
        }
        i += 1;
    }
    Ok((edges, dups, verts))
}

/// Prepares a bevel of the edges of `halfedges`: each edge is duplicated
/// into a two-sided face, then each vertex at the end of a beveled edge is
/// chamfered, and the pairs of new vertices that a bevel does not keep apart
/// are collapsed, across the face between them or, where the boundary
/// separates them, into the chamfered vertex. Gives the half-edges that
/// took part, in order of their keys: the given ones and their twins.
pub fn bevel_edges_connectivity(mesh: &mut MeshConnectivity, halfedges: &[HalfEdgeId]) -> (r: Result<Vec<HalfEdgeId>, EditError>)
    requires
        old(mesh).well_formed(),
        old(mesh)@.links_valid(),
        forall|i: int| 0 <= i < halfedges@.len() ==> old(mesh)@.has_halfedge(#[trigger] halfedges@[i]),
    ensures
        final(mesh).well_formed(),
        r matches Ok(s) ==> {
            &&& sorted_halfedges(s@)
            &&& forall|i: int| 0 <= i < halfedges@.len() ==> s@.contains(#[trigger] halfedges@[i])
            &&& forall|x: HalfEdgeId| #[trigger] s@.contains(x) ==> in_bevel_set(old(mesh)@, halfedges@, x)
        },
{
    // ---- 1. Duplicate all edges ----
    let (edges, dups, verts) = match bevel_duplicate(mesh, halfedges) {
        Ok(t) => t,
        Err(e) => {
            return Err(e);
        },
    };
    // ---- 2. Chamfer all vertices ----
    let mut moves: Vec<(VertexId, VertexId)> = Vec::new();
    let mut deferred: Vec<(VertexId, VertexId, VertexId)> = Vec::new();
    let mut ci: usize = 0;
    while ci < verts.len()
        invariant
            mesh.well_formed(),
            ci <= verts@.len(),
        decreases verts@.len() - ci,
    {
        let central = verts[ci];
        if !mesh.links_check() || !mesh.contains_vertex(central) {
            return Err(EditError::Traversal(TraversalError::MissingVertex(central)));
        }
        if !fan_check(mesh, central) {
            return Err(EditError::OpenLoop);
        }
        let outgoing = match mesh.at_vertex(central).outgoing_halfedges() {
            Ok(o) => o,
            Err(e) => {
                return Err(EditError::Traversal(e));
            },
        };
        let n = outgoing.len();
        let mut num_to_bevel: usize = 0;
        let mut k: usize = 0;
        while k < n
            invariant
                n == outgoing@.len(),
                k <= n,
                num_to_bevel <= k,
            decreases n - k,
        {
            if has_halfedge_in(&edges, outgoing[k]) {
                num_to_bevel += 1;
            }
            k += 1;
        }
        let mut collapse_at: Vec<bool> = Vec::new();
        let mut k: usize = 0;
        while k < n
            invariant
                n == outgoing@.len(),
                k <= n,
                collapse_at@.len() == k,
            decreases n - k,
        {
            let h = outgoing[k];
            let h2 = outgoing[if k + 1 == n { 0 } else { k + 1 }];
            let h_b = has_halfedge_in(&edges, h);
            let h2_b = has_halfedge_in(&edges, h2);
            let h_d = has_halfedge_in(&dups, h);
            let h2_d = has_halfedge_in(&dups, h2);
            let h_n = !h_b && !h_d;
            let h2_n = !h2_b && !h2_d;
            collapse_at.push(
                h_b && h2_n || h_d && h2_b || h_d && h2_n || h_n && h2_b || (num_to_bevel == 2 && h_n && h2_n),
            );
            k += 1;
        }
        let new_verts = match chamfer_vertex(mesh, central) {
            Ok((_, vs)) => vs,
            Err(e) => {
                return Err(e);
            },
        };
        let nv = new_verts.len();
        let pairs = if nv < n {
            nv
        } else {
            n
        };
        let mut local: Vec<(VertexId, VertexId)> = Vec::new();
        let mut k: usize = 0;
        while k < pairs
            invariant
                mesh.well_formed(),
                pairs <= nv,
                pairs <= n,
                nv == new_verts@.len(),
                n == collapse_at@.len(),
                k <= pairs,
            decreases pairs - k,
        {
            if collapse_at[k] {
                let x = new_verts[k];
                let y = new_verts[if k + 1 == nv { 0 } else { k + 1 }];
                let shared = match share_face(mesh, x, y) {
                    Ok(b) => b,
                    Err(e) => {
                        return Err(e);
                    },
                };
                if shared {
                    local.push((x, y));
                } else {
                    deferred.push((x, y, central));
                }
            }
            k += 1;
        }
        let mut k: usize = 0;
        while k < local.len()
            invariant
                mesh.well_formed(),
                k <= local@.len(),
            decreases local@.len() - k,
        {
            let (x0, y0) = local[k];
            let x = match translated(&moves, x0) {
                Some(v) => v,
                None => {
                    return Err(EditError::OpenLoop);
                },
            };
            let y = match translated(&moves, y0) {
                Some(v) => v,
                None => {
                    return Err(EditError::OpenLoop);
                },
            };
            match collapse_between(mesh, y, x) {
                Ok(()) => {},
                Err(e) => {
                    return Err(e);
                },
            }
            record_move(&mut moves, x, y);
            k += 1;
        }
        ci += 1;
    }
    // ---- 3. Collapse across the boundary ----
    let mut k: usize = 0;
    while k < deferred.len()
        invariant
            mesh.well_formed(),
            k <= deferred@.len(),
        decreases deferred@.len() - k,
    {
        let (x0, y0, c0) = deferred[k];
        let x = match translated(&moves, x0) {
            Some(v) => v,
            None => {
                return Err(EditError::OpenLoop);
            },
        };
        let y = match translated(&moves, y0) {
            Some(v) => v,
            None => {
                return Err(EditError::OpenLoop);
            },
        };
        let c = match translated(&moves, c0) {
            Some(v) => v,
            None => {
                return Err(EditError::OpenLoop);
            },
        };
        match collapse_between(mesh, c, x) {
            Ok(()) => {},
            Err(e) => {
                return Err(e);
            },
        }
        match collapse_between(mesh, c, y) {
            Ok(()) => {},
            Err(e) => {
                return Err(e);
            },
        }
        record_move(&mut moves, x, c);
        record_move(&mut moves, y, c);
        k += 1;
    }
    Ok(edges)
}

/// Whether `fs` holds `f`.
fn has_face_in(fs: &[FaceId], f: FaceId) -> (r: bool)
    ensures
        r == fs@.contains(f),
{
    let mut k: usize = 0;
    while k < fs.len()
        invariant
            k <= fs@.len(),
            forall|j: int| 0 <= j < k ==> fs@[j] != f,
        decreases fs@.len() - k,
    {
        if fs[k] == f {
            return true;
        }
        k += 1;
    }
    false
}

/// The twin of half-edge `h` of `m` is on none of the faces `faces`.
pub open spec fn twin_outside(m: crate::halfedge::MeshView, faces: Seq<FaceId>, h: HalfEdgeId) -> bool {
    m.halfedges[h.0].twin matches Some(t) && !(m.halfedges[t.0].face matches Some(g) && faces.contains(g))
}

/// Half-edge `h` of `m` goes around one of the faces `faces`, and its twin
/// is on none of them: it lies on the border of the region the faces make.
pub open spec fn border_edge(m: crate::halfedge::MeshView, faces: Seq<FaceId>, h: HalfEdgeId) -> bool {
    &&& m.has_halfedge(h)
    &&& exists|f: FaceId| faces.contains(f) && #[trigger] face_loop(m, f).contains(h)
    &&& m.halfedges[h.0].twin matches Some(t) && !(m.halfedges[t.0].face matches Some(g) && faces.contains(g))
}

/// The half-edges around each of the faces `faces`, in order, whose twin is
/// not on one of `faces`: the edges around the region the faces make.
fn region_border(mesh: &MeshConnectivity, faces: &[FaceId]) -> (r: Result<Vec<HalfEdgeId>, EditError>)
    requires
        mesh.well_formed(),
        mesh@.links_valid(),
    ensures
        r matches Ok(hs) ==> forall|i: int| 0 <= i < hs@.len() ==> #[trigger] border_edge(mesh@, faces@, hs@[i]),
        r matches Ok(hs) ==> forall|h: HalfEdgeId| #[trigger] border_edge(mesh@, faces@, h) ==> hs@.contains(h),
{
    let mut out: Vec<HalfEdgeId> = Vec::new();
    let mut fi: usize = 0;
    while fi < faces.len()
        invariant
            mesh.well_formed(),
            mesh@.links_valid(),
            fi <= faces@.len(),
            forall|i: int| 0 <= i < out@.len() ==> #[trigger] border_edge(mesh@, faces@, out@[i]),
            forall|i: int, h: HalfEdgeId|
                0 <= i < fi && #[trigger] face_loop(mesh@, faces@[i]).contains(h) && twin_outside(mesh@, faces@, h) ==> out@.contains(h),
        decreases faces@.len() - fi,
    {
        let f = faces[fi];
        if !mesh.contains_face(f) {
            return Err(EditError::Traversal(TraversalError::FaceBadLoop(f)));
        }
        let h0 = match mesh.face(f).halfedge {
            Some(h) => h,
            None => {
                return Err(EditError::Traversal(TraversalError::FaceHasNoHalfedge(f)));
            },
        };
        proof {
            assert(mesh@.opt_halfedge_ok(mesh@.faces[f.0].halfedge));
        }
        if !loop_check(mesh, h0) {
            return Err(EditError::OpenLoop);
        }
        proof {
            crate::halfedge::lemma_loop_ok_cycles(mesh@, h0.0);
        }
        let hs = mesh.face_edges(f);
        proof {
            assert(faces@[fi as int] == f);
            assert(faces@.contains(f));
        }
        let mut k: usize = 0;
        while k < hs.len()
            invariant
                mesh.well_formed(),
                mesh@.links_valid(),
                k <= hs@.len(),
                forall|j: int| 0 <= j < hs@.len() ==> mesh@.has_halfedge(#[trigger] hs@[j]),
                hs@ == face_loop(mesh@, f),
                faces@.contains(f),
                f == faces@[fi as int],
                fi < faces@.len(),
                forall|i: int| 0 <= i < out@.len() ==> #[trigger] border_edge(mesh@, faces@, out@[i]),
                forall|i: int, h: HalfEdgeId|
                    0 <= i < fi && #[trigger] face_loop(mesh@, faces@[i]).contains(h) && twin_outside(mesh@, faces@, h) ==> out@.contains(h),
                forall|kk: int| 0 <= kk < k && twin_outside(mesh@, faces@, #[trigger] hs@[kk]) ==> out@.contains(hs@[kk]),
            decreases hs@.len() - k,
        {
            let h = hs[k];
            let he = mesh.halfedge(h);
            proof {
                assert(mesh@.halfedge_links_ok(mesh@.halfedges[h.0]));
            }
            let t = match he.twin {
                Some(t) => t,
                None => {
                    return Err(EditError::Traversal(TraversalError::HalfEdgeHasNoTwin(h)));
                },
            };
            let inside = match mesh.halfedge(t).face {
                Some(g) => has_face_in(faces, g),
                None => false,
            };
            if !inside {
                proof {
                    assert(face_loop(mesh@, f).contains(h)) by {
                        assert(hs@[k as int] == h);
                    }
                    assert(border_edge(mesh@, faces@, h));
                }
                let ghost o0 = out@;
                out.push(h);
                proof {
                    assert forall|i: int| 0 <= i < out@.len() implies #[trigger] border_edge(mesh@, faces@, out@[i]) by {
                        if i < o0.len() {
                            assert(out@[i] == o0[i]);
                        }
                    }
                    assert forall|x: HalfEdgeId| o0.contains(x) implies out@.contains(x) by {
                        let t = choose|t: int| 0 <= t < o0.len() && o0[t] == x;
                        assert(out@[t] == x);
                    }
                    assert(out@[o0.len() as int] == h);
                }
            } else {
                proof {
                    assert(!twin_outside(mesh@, faces@, h));
                }
            }
            proof {
                assert(hs@[k as int] == h);
            }
            k += 1;
        }
        proof {
            assert forall|i: int, h: HalfEdgeId|
                0 <= i < fi + 1 && #[trigger] face_loop(mesh@, faces@[i]).contains(h) && twin_outside(mesh@, faces@, h) implies out@.contains(h) by {
                if i == fi {
                    let kk = choose|kk: int| 0 <= kk < hs@.len() && hs@[kk] == h;
                    assert(twin_outside(mesh@, faces@, hs@[kk]));
                }
            }
        }
        fi += 1;
    }
    proof {
        assert forall|h: HalfEdgeId| #[trigger] border_edge(mesh@, faces@, h) implies out@.contains(h) by {
            let f = choose|f: FaceId| faces@.contains(f) && #[trigger] face_loop(mesh@, f).contains(h);
            let i = choose|i: int| 0 <= i < faces@.len() && faces@[i] == f;
            assert(face_loop(mesh@, faces@[i]).contains(h));
        }
    }
    Ok(out)
}

/// The connectivity of an extrusion of the faces `faces`: the edges around
/// the region they make are beveled, so that the faces stay and a strip of
/// new faces joins them to the rest of the mesh. Gives the half-edges that
/// took part, as [`bevel_edges_connectivity`] does.
pub fn extrude_faces_connectivity(mesh: &mut MeshConnectivity, faces: &[FaceId]) -> (r: Result<Vec<HalfEdgeId>, EditError>)
    requires
        old(mesh).well_formed(),
        old(mesh)@.links_valid(),
    ensures
        final(mesh).well_formed(),
        r matches Ok(s) ==> sorted_halfedges(s@),
        r matches Ok(s) ==> forall|x: HalfEdgeId| #[trigger] s@.contains(x) ==> exists|h: HalfEdgeId|
            border_edge(old(mesh)@, faces@, h) && (x == h || #[trigger] old(mesh)@.halfedges[h.0].twin == Some(x)),
        r matches Ok(s) ==> forall|h: HalfEdgeId| #[trigger] border_edge(old(mesh)@, faces@, h) ==> s@.contains(h),
{
    let ghost m = mesh@;
    let border = match region_border(mesh, faces) {
        Ok(b) => b,
        Err(e) => {
            return Err(e);
        },
    };
    proof {
        assert forall|i: int| 0 <= i < border@.len() implies m.has_halfedge(#[trigger] border@[i]) by {
            assert(border_edge(m, faces@, border@[i]));
        }
    }
    let r = bevel_edges_connectivity(mesh, &border);
    proof {
        if r is Ok {
            let s = r->Ok_0;
            assert forall|x: HalfEdgeId| #[trigger] s@.contains(x) implies exists|h: HalfEdgeId|
                border_edge(m, faces@, h) && (x == h || #[trigger] m.halfedges[h.0].twin == Some(x)) by {
                assert(in_bevel_set(m, border@, x));
                if border@.contains(x) {
                    let i = choose|i: int| 0 <= i < border@.len() && border@[i] == x;
                    assert(border_edge(m, faces@, border@[i]));
                } else {
                    let j = choose|j: int| 0 <= j < border@.len() && #[trigger] m.halfedges[border@[j].0].twin == Some(x);
                    assert(border_edge(m, faces@, border@[j]));
                }
            }
            assert forall|h: HalfEdgeId| #[trigger] border_edge(m, faces@, h) implies s@.contains(h) by {
                assert(border@.contains(h));
                let i = choose|i: int| 0 <= i < border@.len() && border@[i] == h;
                assert(s@.contains(border@[i]));
            }
        }
    }
    r
}

} // verus!
